//! What a key press does to the command line input: the cursor keys, the
//! editing keys, the clipboard shortcuts and typed text, in each mode of the
//! shell window.
use vstd::prelude::*;
use crate::control::ControlMode;
use crate::unicode::{plain_ascii, single_chars};
use crate::text_input::{
    backspaced, clamp_state, lemma_cursor_equal_iff_state_equal, deleted, left_of, min_index, moved_left, moved_right, pasted,
    range_state, right_of, selected_left, selected_right, selection_of, start_of, typed, typed_text,
    word_end_after, word_start_before, Cursor, CursorState, Editor, Value,
};

verus! {

/// The modifier keys, as the input reads them.
#[derive(Debug, Copy, Clone, PartialEq, Eq, Structural)]
pub struct KeyModifiers {
    /// Shift is held
    pub shift: bool,
    /// Alt is held
    pub alt: bool,
    /// The command key of the platform is held
    pub command: bool,
    /// The key that makes the cursor keys jump is held
    pub jump: bool,
    /// The command key of macOS is held
    pub macos_command: bool,
    /// No modifier is held
    pub none: bool,
    /// Shift alone is held
    pub shift_only: bool,
}

/// The named keys that the input reacts to.
#[derive(Debug, Copy, Clone, PartialEq, Eq, Structural)]
pub enum NamedKey {
    Enter,
    Backspace,
    Delete,
    Home,
    End,
    ArrowLeft,
    ArrowRight,
    Escape,
    /// Any other key
    Other,
}

/// A key press, as the input reads it.
#[derive(Debug, Copy, Clone, PartialEq, Eq, Structural)]
pub struct KeyPress {
    /// The key as a latin character, where it stands for one
    pub latin: Option<char>,
    /// The key with the modifiers applied, as a latin character
    pub modified_latin: Option<char>,
    /// Whether the key produced text
    pub has_text: bool,
    /// The first character of that text
    pub text_char: Option<char>,
    /// The key with the modifiers applied, where it is a named key
    pub named: NamedKey,
}

/// Which handlers the owner of the input has set.
#[derive(Debug, Copy, Clone, PartialEq, Eq, Structural)]
pub struct InputHandlers {
    /// A handler for edits
    pub on_input: bool,
    /// A handler for pastes
    pub on_paste: bool,
    /// A handler for a submitted line
    pub on_submit: bool,
}

/// Where a paste stands.
pub enum Paste {
    /// The clipboard is being read
    Reading,
    /// The clipboard held this content
    Pasting(Value),
}

/// What the owner of the input must do after a key press.
pub enum KeyAction {
    /// Nothing: the event goes on to other widgets
    Ignored,
    /// The event is taken and nothing more happens
    Captured,
    /// The cursor keys were handled; `changed` tells whether the cursor moved
    CursorMoved { changed: bool },
    /// The selection is copied: the text for the clipboard, if anything was
    /// selected
    Copied(Option<String>),
    /// The text was edited: `contents` goes to the paste handler where
    /// `via_paste`, else to the input handler; `clipboard` is the text cut
    /// out for the clipboard, if any
    Edited { contents: String, via_paste: bool, clipboard: Option<String> },
    /// The clipboard must be read, and the paste retried
    ReadClipboard,
    /// The line is submitted
    Submitted,
    /// Dragging, pasting and the held modifiers are forgotten
    Escaped,
}

/// The clipboard shortcuts of the insert mode.
#[derive(Debug, Copy, Clone, PartialEq, Eq, Structural)]
pub enum Shortcut {
    Copy,
    Cut,
    Paste,
    SelectAll,
}

/// The shortcut that a key press makes, if any.
pub open spec fn shortcut_of(key: KeyPress, m: KeyModifiers) -> Option<Shortcut> {
    if key.latin == Some('c') && m.command {
        Some(Shortcut::Copy)
    } else if key.latin == Some('x') && m.command {
        Some(Shortcut::Cut)
    } else if key.latin == Some('v') && m.command && !m.alt {
        Some(Shortcut::Paste)
    } else if key.latin == Some('a') && m.command {
        Some(Shortcut::SelectAll)
    } else {
        None
    }
}

/// A control character: general category Cc.
pub open spec fn is_control_char(c: char) -> bool {
    c <= '\u{1f}' || ('\u{7f}' <= c && c <= '\u{9f}')
}

/// Whether `c` is a control character.
pub fn char_is_control(c: char) -> (b: bool)
    ensures
        b == is_control_char(c),
{
    c <= '\u{1f}' || ('\u{7f}' <= c && c <= '\u{9f}')
}

/// The cursor after a key in the normal mode, where keys move the cursor as
/// in vi.
pub open spec fn normal_mode_cursor(
    v: Seq<Seq<char>>,
    c: CursorState,
    m: KeyModifiers,
    k: Option<char>,
) -> CursorState {
    let len = v.len() as usize;
    if m.none && k == Some('h') {
        moved_left(c, len)
    } else if m.none && k == Some('b') {
        CursorState::Index(word_start_before(v, left_of(clamp_state(c, len))))
    } else if m.none && k == Some('l') {
        moved_right(c, len, 1)
    } else if m.none && k == Some('w') {
        CursorState::Index(word_end_after(v, right_of(clamp_state(c, len))))
    } else if m.shift_only && k == Some('$') {
        CursorState::Index(usize::MAX)
    } else if m.none && k == Some('0') {
        CursorState::Index(0)
    } else {
        c
    }
}

/// The text of the selection, if there is one.
pub open spec fn selection_text(v: Seq<Seq<char>>, c: CursorState) -> Option<Seq<char>> {
    match selection_of(clamp_state(c, v.len() as usize)) {
        Some((a, b)) => Some(v.subrange(a as int, b as int).flatten()),
        None => None,
    }
}

/// The cursor after Home: to the start, selecting with shift.
pub open spec fn home_cursor(v: Seq<Seq<char>>, c: CursorState, m: KeyModifiers) -> CursorState {
    if m.shift {
        range_state(min_index(start_of(c), v.len() as usize), 0)
    } else {
        CursorState::Index(0)
    }
}

/// The cursor after End: to the end, selecting with shift.
pub open spec fn end_cursor(v: Seq<Seq<char>>, c: CursorState, m: KeyModifiers) -> CursorState {
    if m.shift {
        range_state(min_index(start_of(c), v.len() as usize), v.len() as usize)
    } else {
        CursorState::Index(v.len() as usize)
    }
}

/// The cursor after the left arrow.
pub open spec fn left_cursor(v: Seq<Seq<char>>, c: CursorState, m: KeyModifiers) -> CursorState {
    if m.jump || m.macos_command {
        home_cursor(v, c, m)
    } else if m.shift {
        selected_left(c, v.len() as usize)
    } else {
        moved_left(c, v.len() as usize)
    }
}

/// The cursor after the right arrow.
pub open spec fn right_cursor(v: Seq<Seq<char>>, c: CursorState, m: KeyModifiers) -> CursorState {
    if m.jump || m.macos_command {
        end_cursor(v, c, m)
    } else if m.shift {
        selected_right(c, v.len() as usize)
    } else {
        moved_right(c, v.len() as usize, 1)
    }
}

/// The text and cursor after Backspace: with the jump key and no selection,
/// everything before the cursor goes.
pub open spec fn backspace_key(v: Seq<Seq<char>>, c: CursorState, m: KeyModifiers) -> (
    Seq<Seq<char>>,
    CursorState,
) {
    let c1 = if selection_of(clamp_state(c, v.len() as usize)) is None && (m.jump
        || m.macos_command) {
        range_state(min_index(start_of(c), v.len() as usize), 0)
    } else {
        c
    };
    backspaced(v, c1)
}

/// The text and cursor after Delete: with the jump key and no selection,
/// everything after the cursor goes.
pub open spec fn delete_key(v: Seq<Seq<char>>, c: CursorState, m: KeyModifiers) -> (
    Seq<Seq<char>>,
    CursorState,
) {
    let c1 = if selection_of(clamp_state(c, v.len() as usize)) is None && (m.jump
        || m.macos_command) {
        range_state(min_index(start_of(c), v.len() as usize), v.len() as usize)
    } else {
        c
    };
    deleted(v, c1)
}

/// The text of an optional string.
pub open spec fn opt_text(o: Option<String>) -> Option<Seq<char>> {
    match o {
        Some(s) => Some(s@),
        None => None,
    }
}

/// The action reports an edit that left the text `text`.
pub open spec fn edited_as(
    a: KeyAction,
    text: Seq<Seq<char>>,
    via_paste: bool,
    clipboard: Option<Seq<char>>,
) -> bool {
    &&& a matches KeyAction::Edited { contents, via_paste: vp, clipboard: cb }
    &&& contents@ == text.flatten()
    &&& vp == via_paste
    &&& opt_text(cb) == clipboard
}

/// The action reports cursor keys, and whether the cursor moved.
pub open spec fn cursor_moved_as(a: KeyAction, changed: bool) -> bool {
    a matches KeyAction::CursorMoved { changed: ch } && ch == changed
}

/// What a named key does in the insert mode: the text, the cursor and the
/// action after it.
pub open spec fn named_key_result(
    v: Seq<Seq<char>>,
    c: CursorState,
    m: KeyModifiers,
    k: NamedKey,
    h: InputHandlers,
    rv: Seq<Seq<char>>,
    rc: CursorState,
    a: KeyAction,
) -> bool {
    match k {
        NamedKey::Enter => rv == v && rc == c && (if h.on_submit {
            a is Submitted
        } else {
            a is Ignored
        }),
        NamedKey::Backspace => if h.on_input {
            (rv, rc) == backspace_key(v, c, m) && edited_as(a, rv, false, None)
        } else {
            rv == v && rc == c && a is Ignored
        },
        NamedKey::Delete => if h.on_input {
            (rv, rc) == delete_key(v, c, m) && edited_as(a, rv, false, None)
        } else {
            rv == v && rc == c && a is Ignored
        },
        NamedKey::Home => rv == v && rc == home_cursor(v, c, m) && cursor_moved_as(a, rc != c),
        NamedKey::End => rv == v && rc == end_cursor(v, c, m) && cursor_moved_as(a, rc != c),
        NamedKey::ArrowLeft => rv == v && rc == left_cursor(v, c, m) && cursor_moved_as(
            a,
            rc != c,
        ),
        NamedKey::ArrowRight => rv == v && rc == right_cursor(v, c, m) && cursor_moved_as(
            a,
            rc != c,
        ),
        NamedKey::Escape => rv == v && rc == c && a is Escaped,
        NamedKey::Other => rv == v && rc == c && a is Ignored,
    }
}

fn is_latin(o: Option<char>, c: char) -> (b: bool)
    ensures
        b == (o == Some(c)),
{
    match o {
        Some(k) => k == c,
        None => false,
    }
}

fn moved_cursor(before: Cursor, after: Cursor) -> (a: KeyAction)
    ensures
        cursor_moved_as(a, after@ != before@),
{
    proof {
        lemma_cursor_equal_iff_state_equal(after, before);
    }
    KeyAction::CursorMoved { changed: after != before }
}

/// The cursor after a key in the normal mode.
pub fn normal_mode_key(value: &Value, cursor: Cursor, m: KeyModifiers, key: Option<char>) -> (r:
    Cursor)
    ensures
        r@ == normal_mode_cursor(value@, cursor@, m, key),
{
    let mut cur = cursor;
    if m.none && is_latin(key, 'h') {
        cur.move_left(value);
    } else if m.none && is_latin(key, 'b') {
        cur.move_left_by_words(value);
    } else if m.none && is_latin(key, 'l') {
        cur.move_right(value);
    } else if m.none && is_latin(key, 'w') {
        cur.move_right_by_words(value);
    } else if m.shift_only && is_latin(key, '$') {
        cur.move_to(usize::MAX);
    } else if m.none && is_latin(key, '0') {
        cur.move_to(0);
    }
    cur
}

/// The text of the selection, for the clipboard.
fn selected_text(value: &Value, cursor: &Cursor) -> (r: Option<String>)
    ensures
        opt_text(r) == selection_text(value@, cursor@),
{
    match cursor.selection(value) {
        Some((a, b)) => Some(value.select(a, b).to_string()),
        None => None,
    }
}

/// What a named key does in the insert mode.
pub fn named_key(value: Value, cursor: Cursor, m: KeyModifiers, k: NamedKey, h: InputHandlers) -> (r:
    (Value, Cursor, KeyAction))
    ensures
        named_key_result(value@, cursor@, m, k, h, r.0@, r.1@, r.2),
{
    let mut cur = cursor;
    match k {
        NamedKey::Enter => {
            if h.on_submit {
                (value, cursor, KeyAction::Submitted)
            } else {
                (value, cursor, KeyAction::Ignored)
            }
        },
        NamedKey::Backspace => {
            if !h.on_input {
                return (value, cursor, KeyAction::Ignored);
            }
            if cur.selection(&value).is_none() && (m.jump || m.macos_command) {
                let st = cur.start(&value);
                cur.select_range(st, 0);
            }
            let mut ed = Editor::new(value, cur);
            ed.backspace();
            let contents = ed.contents();
            let (v2, c2) = ed.into_parts();
            (v2, c2, KeyAction::Edited { contents, via_paste: false, clipboard: None })
        },
        NamedKey::Delete => {
            if !h.on_input {
                return (value, cursor, KeyAction::Ignored);
            }
            if cur.selection(&value).is_none() && (m.jump || m.macos_command) {
                let st = cur.start(&value);
                cur.select_range(st, value.len());
            }
            let mut ed = Editor::new(value, cur);
            ed.delete();
            let contents = ed.contents();
            let (v2, c2) = ed.into_parts();
            (v2, c2, KeyAction::Edited { contents, via_paste: false, clipboard: None })
        },
        NamedKey::Home => {
            if m.shift {
                let st = cur.start(&value);
                cur.select_range(st, 0);
            } else {
                cur.move_to(0);
            }
            let a = moved_cursor(cursor, cur);
            (value, cur, a)
        },
        NamedKey::End => {
            if m.shift {
                let st = cur.start(&value);
                cur.select_range(st, value.len());
            } else {
                cur.move_to(value.len());
            }
            let a = moved_cursor(cursor, cur);
            (value, cur, a)
        },
        NamedKey::ArrowLeft => {
            if m.jump || m.macos_command {
                if m.shift {
                    let st = cur.start(&value);
                    cur.select_range(st, 0);
                } else {
                    cur.move_to(0);
                }
            } else if m.shift {
                cur.select_left(&value);
            } else {
                cur.move_left(&value);
            }
            let a = moved_cursor(cursor, cur);
            (value, cur, a)
        },
        NamedKey::ArrowRight => {
            if m.jump || m.macos_command {
                if m.shift {
                    let st = cur.start(&value);
                    cur.select_range(st, value.len());
                } else {
                    cur.move_to(value.len());
                }
            } else if m.shift {
                cur.select_right(&value);
            } else {
                cur.move_right(&value);
            }
            let a = moved_cursor(cursor, cur);
            (value, cur, a)
        },
        NamedKey::Escape => (value, cursor, KeyAction::Escaped),
        NamedKey::Other => (value, cursor, KeyAction::Ignored),
    }
}

/// The character that a key press types: the first character of its text,
/// unless that is a control character.
pub open spec fn typed_char(key: KeyPress) -> Option<char> {
    match key.text_char {
        Some(ch) => if key.has_text && !is_control_char(ch) {
            Some(ch)
        } else {
            None
        },
        None => None,
    }
}

/// What a key press does in the insert mode: the text, the cursor, the
/// paste state and the action after it.
pub open spec fn insert_mode_result(
    v: Seq<Seq<char>>,
    c: CursorState,
    p: Option<Paste>,
    m: KeyModifiers,
    key: KeyPress,
    h: InputHandlers,
    rv: Seq<Seq<char>>,
    rc: CursorState,
    rp: Option<Paste>,
    a: KeyAction,
) -> bool {
    match shortcut_of(key, m) {
        Some(Shortcut::Copy) => rv == v && rc == c && rp == p && (a matches KeyAction::Copied(t)
            && opt_text(t) == selection_text(v, c)),
        Some(Shortcut::Cut) => rp == p && if h.on_input {
            (rv, rc) == deleted(v, c) && edited_as(a, rv, false, selection_text(v, c))
        } else {
            rv == v && rc == c && a is Ignored
        },
        Some(Shortcut::Paste) => if !h.on_input {
            rv == v && rc == c && rp == p && a is Ignored
        } else {
            match p {
                Some(Paste::Pasting(content)) => (rv, rc) == pasted(v, c, content@) && rp == p
                    && edited_as(a, rv, h.on_paste, None),
                Some(Paste::Reading) => rv == v && rc == c && rp == p && a is Ignored,
                None => rv == v && rc == c && rp == Some(Paste::Reading) && a is ReadClipboard,
            }
        },
        Some(Shortcut::SelectAll) => rv == v && rc == range_state(0, v.len() as usize) && rp == p
            && cursor_moved_as(a, rc != c),
        None => if key.has_text && !h.on_input {
            rv == v && rc == c && rp == p && a is Ignored
        } else {
            match typed_char(key) {
                Some(ch) => (rv, rc) == typed(v, c, ch) && rv.flatten() == typed_text(v, c, ch)
                    && (plain_ascii(rv.flatten()) ==> rv == single_chars(rv.flatten()))
                    && rp is None && edited_as(
                    a,
                    rv,
                    false,
                    None,
                ),
                None => {
                    &&& named_key_result(v, c, m, key.named, h, rv, rc, a)
                    &&& rp == (if key.has_text || key.named == NamedKey::Escape {
                        None
                    } else {
                        p
                    })
                },
            }
        },
    }
}

/// Handles a key press in the input of the shell window: returns the text
/// and cursor after it and what the owner of the input must do, and updates
/// the paste state. Keys do nothing while the input has no focus or the
/// running program has the keyboard.
pub fn handle_key_press(
    value: Value,
    cursor: Cursor,
    pasting: &mut Option<Paste>,
    focused: bool,
    mode: ControlMode,
    m: KeyModifiers,
    key: KeyPress,
    h: InputHandlers,
) -> (r: (Value, Cursor, KeyAction))
    ensures
        !focused || mode == ControlMode::Term ==> r.0@ == value@ && r.1@ == cursor@
            && *final(pasting) == *old(pasting) && r.2 is Ignored,
        focused && mode == ControlMode::Normal ==> r.0@ == value@ && r.1@ == normal_mode_cursor(
            value@,
            cursor@,
            m,
            key.modified_latin,
        ) && *final(pasting) == *old(pasting) && r.2 is Ignored,
        focused && mode == ControlMode::Insert ==> insert_mode_result(
            value@,
            cursor@,
            *old(pasting),
            m,
            key,
            h,
            r.0@,
            r.1@,
            *final(pasting),
            r.2,
        ),
{
    if !focused {
        return (value, cursor, KeyAction::Ignored);
    }
    match mode {
        ControlMode::Term => (value, cursor, KeyAction::Ignored),
        ControlMode::Normal => {
            let c = normal_mode_key(&value, cursor, m, key.modified_latin);
            (value, c, KeyAction::Ignored)
        },
        ControlMode::Insert => insert_mode_key(value, cursor, pasting, m, key, h),
    }
}

fn insert_mode_key(
    value: Value,
    cursor: Cursor,
    pasting: &mut Option<Paste>,
    m: KeyModifiers,
    key: KeyPress,
    h: InputHandlers,
) -> (r: (Value, Cursor, KeyAction))
    ensures
        insert_mode_result(
            value@,
            cursor@,
            *old(pasting),
            m,
            key,
            h,
            r.0@,
            r.1@,
            *final(pasting),
            r.2,
        ),
{
    if is_latin(key.latin, 'c') && m.command {
        let t = selected_text(&value, &cursor);
        return (value, cursor, KeyAction::Copied(t));
    }
    if is_latin(key.latin, 'x') && m.command {
        if !h.on_input {
            return (value, cursor, KeyAction::Ignored);
        }
        let clipboard = selected_text(&value, &cursor);
        let mut ed = Editor::new(value, cursor);
        ed.delete();
        let contents = ed.contents();
        let (v2, c2) = ed.into_parts();
        return (v2, c2, KeyAction::Edited { contents, via_paste: false, clipboard });
    }
    if is_latin(key.latin, 'v') && m.command && !m.alt {
        if !h.on_input {
            return (value, cursor, KeyAction::Ignored);
        }
        let content: Option<Value> = match &*pasting {
            Some(Paste::Pasting(content)) => Some(content.duplicate()),
            Some(Paste::Reading) => {
                return (value, cursor, KeyAction::Ignored);
            },
            None => None,
        };
        match content {
            Some(content) => {
                let mut ed = Editor::new(value, cursor);
                ed.paste(content);
                let contents = ed.contents();
                let (v2, c2) = ed.into_parts();
                return (v2, c2, KeyAction::Edited { contents, via_paste: h.on_paste, clipboard: None });
            },
            None => {
                *pasting = Some(Paste::Reading);
                return (value, cursor, KeyAction::ReadClipboard);
            },
        }
    }
    if is_latin(key.latin, 'a') && m.command {
        let mut cur = cursor;
        cur.select_all(&value);
        let a = moved_cursor(cursor, cur);
        return (value, cur, a);
    }
    if key.has_text {
        if !h.on_input {
            return (value, cursor, KeyAction::Ignored);
        }
        *pasting = None;
        match key.text_char {
            Some(ch) => {
                if !char_is_control(ch) {
                    let mut ed = Editor::new(value, cursor);
                    ed.insert(ch);
                    let contents = ed.contents();
                    let (v2, c2) = ed.into_parts();
                    return (v2, c2, KeyAction::Edited { contents, via_paste: false, clipboard: None });
                }
            },
            None => {},
        }
    }
    if key.named == NamedKey::Escape {
        *pasting = None;
    }
    named_key(value, cursor, m, key.named, h)
}

/// How many times in a row the mouse was clicked.
#[derive(Debug, Copy, Clone, PartialEq, Eq, Structural)]
pub enum ClickKind {
    Single,
    Double,
    Triple,
}

/// What dragging the mouse selects.
#[derive(Debug, Copy, Clone, PartialEq, Eq, Structural)]
pub enum Drag {
    /// From where the cursor starts
    Select,
    /// Whole words, from the word at `anchor`
    SelectWords { anchor: usize },
}

/// The cursor and the drag after a click at grapheme `position`: a single
/// click places the caret (or, with shift, selects up to it), a double
/// click selects the word, a triple click selects everything.
pub open spec fn clicked(
    v: Seq<Seq<char>>,
    c: CursorState,
    kind: ClickKind,
    shift: bool,
    position: usize,
) -> (CursorState, Option<Drag>) {
    match kind {
        ClickKind::Single => (
            if shift {
                range_state(min_index(start_of(c), v.len() as usize), position)
            } else {
                CursorState::Index(position)
            },
            Some(Drag::Select),
        ),
        ClickKind::Double => (
            range_state(word_start_before(v, position), word_end_after(v, position)),
            Some(Drag::SelectWords { anchor: position }),
        ),
        ClickKind::Triple => (range_state(0, v.len() as usize), None),
    }
}

/// Handles a click of the left button at grapheme `position` of the text.
pub fn handle_click(
    value: &Value,
    cursor: Cursor,
    kind: ClickKind,
    shift: bool,
    position: usize,
) -> (r: (Cursor, Option<Drag>))
    requires
        kind == ClickKind::Double ==> position <= value@.len(),
    ensures
        (r.0@, r.1) == clicked(value@, cursor@, kind, shift, position),
{
    let mut cur = cursor;
    match kind {
        ClickKind::Single => {
            if shift {
                let st = cur.start(value);
                cur.select_range(st, position);
            } else {
                cur.move_to(position);
            }
            (cur, Some(Drag::Select))
        },
        ClickKind::Double => {
            cur.select_range(
                value.previous_start_of_word(position),
                value.next_end_of_word(position),
            );
            (cur, Some(Drag::SelectWords { anchor: position }))
        },
        ClickKind::Triple => {
            cur.select_all(value);
            (cur, None)
        },
    }
}

/// The cursor after dragging to grapheme `position`.
pub open spec fn dragged(v: Seq<Seq<char>>, c: CursorState, drag: Drag, position: usize) -> CursorState {
    match drag {
        Drag::Select => range_state(min_index(start_of(c), v.len() as usize), position),
        Drag::SelectWords { anchor } => if position < anchor {
            range_state(word_start_before(v, position), word_end_after(v, anchor))
        } else {
            range_state(word_start_before(v, anchor), word_end_after(v, position))
        },
    }
}

/// Handles the mouse moving to grapheme `position` while dragging; also
/// tells whether the selection changed, so that the input is drawn again.
pub fn handle_drag(value: &Value, cursor: Cursor, drag: Drag, position: usize) -> (r: (
    Cursor,
    bool,
))
    requires
        drag matches Drag::SelectWords { anchor } ==> anchor <= value@.len() && position
            <= value@.len(),
    ensures
        r.0@ == dragged(value@, cursor@, drag, position),
        r.1 == (selection_of(clamp_state(r.0@, value@.len() as usize)) != selection_of(
            clamp_state(cursor@, value@.len() as usize),
        )),
{
    let before = cursor.selection(value);
    let mut cur = cursor;
    match drag {
        Drag::Select => {
            let st = cur.start(value);
            cur.select_range(st, position);
        },
        Drag::SelectWords { anchor } => {
            if position < anchor {
                cur.select_range(
                    value.previous_start_of_word(position),
                    value.next_end_of_word(anchor),
                );
            } else {
                cur.select_range(
                    value.previous_start_of_word(anchor),
                    value.next_end_of_word(position),
                );
            }
        },
    }
    let after = cur.selection(value);
    let changed = match (before, after) {
        (Some((a, b)), Some((x, y))) => a != x || b != y,
        (None, None) => false,
        _ => true,
    };
    (cur, changed)
}

} // verus!
