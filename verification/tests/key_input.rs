use fatty::control::ControlMode;
use fatty::key_input::{
    handle_click, handle_drag, handle_key_press, ClickKind, Drag, InputHandlers, KeyAction,
    KeyModifiers, KeyPress, NamedKey, Paste,
};
use fatty::text_input::{Cursor, CursorState, Value};

fn mods() -> KeyModifiers {
    KeyModifiers {
        shift: false,
        alt: false,
        command: false,
        jump: false,
        macos_command: false,
        none: true,
        shift_only: false,
    }
}

fn shift() -> KeyModifiers {
    KeyModifiers { shift: true, none: false, shift_only: true, ..mods() }
}

fn ctrl() -> KeyModifiers {
    KeyModifiers { command: true, jump: true, none: false, ..mods() }
}

fn named(k: NamedKey) -> KeyPress {
    KeyPress { latin: None, modified_latin: None, has_text: false, text_char: None, named: k }
}

fn typed(c: char) -> KeyPress {
    KeyPress {
        latin: Some(c),
        modified_latin: Some(c),
        has_text: true,
        text_char: Some(c),
        named: NamedKey::Other,
    }
}

fn handlers() -> InputHandlers {
    InputHandlers { on_input: true, on_paste: false, on_submit: true }
}

fn press(
    text: &str,
    at: CursorState,
    mode: ControlMode,
    m: KeyModifiers,
    key: KeyPress,
    pasting: &mut Option<Paste>,
) -> (String, CursorState, KeyAction) {
    let (v, c, a) = handle_key_press(
        Value::new(text),
        Cursor::new(at),
        pasting,
        true,
        mode,
        m,
        key,
        handlers(),
    );
    let st = c.state(&v);
    (v.to_string(), st, a)
}

#[test]
fn typing_and_deleting() {
    let mut p = None;
    let (t, c, a) = press("bc", CursorState::Index(0), ControlMode::Insert, mods(), typed('a'), &mut p);
    assert_eq!((t.as_str(), c), ("abc", CursorState::Index(1)));
    assert!(matches!(a, KeyAction::Edited { ref contents, via_paste: false, clipboard: None } if contents == "abc"));

    let (t, c, _) = press("abc", CursorState::Index(2), ControlMode::Insert, mods(), named(NamedKey::Backspace), &mut p);
    assert_eq!((t.as_str(), c), ("ac", CursorState::Index(1)));

    // With the jump key, everything before the cursor goes.
    let (t, c, _) = press("abc def", CursorState::Index(5), ControlMode::Insert, ctrl(), named(NamedKey::Backspace), &mut p);
    assert_eq!((t.as_str(), c), ("ef", CursorState::Index(0)));

    let (t, c, _) = press("abc", CursorState::Index(1), ControlMode::Insert, mods(), named(NamedKey::Delete), &mut p);
    assert_eq!((t.as_str(), c), ("ac", CursorState::Index(1)));

    let (t, c, _) = press("abc def", CursorState::Index(2), ControlMode::Insert, ctrl(), named(NamedKey::Delete), &mut p);
    assert_eq!((t.as_str(), c), ("ab", CursorState::Index(2)));

    // A control character is not typed.
    let mut key = typed('\u{8}');
    key.named = NamedKey::Other;
    let (t, _, a) = press("ab", CursorState::Index(1), ControlMode::Insert, mods(), key, &mut p);
    assert_eq!(t, "ab");
    assert!(matches!(a, KeyAction::Ignored));
}

#[test]
fn cursor_keys() {
    let mut p = None;
    let (_, c, a) = press("abc", CursorState::Index(1), ControlMode::Insert, mods(), named(NamedKey::ArrowRight), &mut p);
    assert_eq!(c, CursorState::Index(2));
    assert!(matches!(a, KeyAction::CursorMoved { changed: true }));
    let (_, c, _) = press("abc", CursorState::Index(1), ControlMode::Insert, shift(), named(NamedKey::ArrowLeft), &mut p);
    assert_eq!(c, CursorState::Selection { start: 1, end: 0 });
    let (_, c, _) = press("abc", CursorState::Index(1), ControlMode::Insert, shift(), named(NamedKey::End), &mut p);
    assert_eq!(c, CursorState::Selection { start: 1, end: 3 });
    let (_, c, a) = press("abc", CursorState::Index(0), ControlMode::Insert, mods(), named(NamedKey::Home), &mut p);
    assert_eq!(c, CursorState::Index(0));
    assert!(matches!(a, KeyAction::CursorMoved { changed: false }));
    let (_, c, _) = press("abc", CursorState::Index(1), ControlMode::Insert, ctrl(), named(NamedKey::ArrowRight), &mut p);
    assert_eq!(c, CursorState::Index(3));
}

#[test]
fn clipboard_shortcuts() {
    let mut p = None;
    let (_, _, a) = press("hello", CursorState::Selection { start: 1, end: 3 }, ControlMode::Insert, ctrl(), typed('c'), &mut p);
    assert!(matches!(a, KeyAction::Copied(Some(ref s)) if s == "el"));
    let (t, c, a) = press("hello", CursorState::Selection { start: 1, end: 3 }, ControlMode::Insert, ctrl(), typed('x'), &mut p);
    assert_eq!((t.as_str(), c), ("hlo", CursorState::Index(1)));
    assert!(matches!(a, KeyAction::Edited { clipboard: Some(ref s), .. } if s == "el"));
    let (_, c, _) = press("hello", CursorState::Index(2), ControlMode::Insert, ctrl(), typed('a'), &mut p);
    assert_eq!(c, CursorState::Selection { start: 0, end: 5 });

    let (_, _, a) = press("hi", CursorState::Index(2), ControlMode::Insert, ctrl(), typed('v'), &mut p);
    assert!(matches!(a, KeyAction::ReadClipboard));
    assert!(matches!(p, Some(Paste::Reading)));
    let (_, _, a) = press("hi", CursorState::Index(2), ControlMode::Insert, ctrl(), typed('v'), &mut p);
    assert!(matches!(a, KeyAction::Ignored));
    let mut q = Some(Paste::Pasting(Value::new(" there")));
    let (t, c, _) = press("hi", CursorState::Index(2), ControlMode::Insert, ctrl(), typed('v'), &mut q);
    assert_eq!((t.as_str(), c), ("hi there", CursorState::Index(8)));
    let (_, _, a) = press("hi", CursorState::Index(2), ControlMode::Insert, mods(), named(NamedKey::Escape), &mut q);
    assert!(matches!(a, KeyAction::Escaped));
    assert!(q.is_none());
}

#[test]
fn modes_and_focus() {
    let mut p = None;
    let mut h = typed('h');
    h.has_text = false;
    let (t, c, a) = press("abc", CursorState::Index(2), ControlMode::Normal, mods(), h, &mut p);
    assert_eq!((t.as_str(), c), ("abc", CursorState::Index(1)));
    assert!(matches!(a, KeyAction::Ignored));
    let (_, c, _) = press("ab cd", CursorState::Index(0), ControlMode::Normal, mods(), typed('w'), &mut p);
    assert_eq!(c, CursorState::Index(2));
    let (t, c, _) = press("abc", CursorState::Index(2), ControlMode::Term, mods(), typed('x'), &mut p);
    assert_eq!((t.as_str(), c), ("abc", CursorState::Index(2)));
    let (v, c, a) = handle_key_press(
        Value::new("abc"),
        Cursor::new(CursorState::Index(1)),
        &mut p,
        false,
        ControlMode::Insert,
        mods(),
        typed('x'),
        handlers(),
    );
    assert_eq!((v.to_string(), c.state(&v)), ("abc".to_string(), CursorState::Index(1)));
    assert!(matches!(a, KeyAction::Ignored));
    let (_, _, a) = press("abc", CursorState::Index(1), ControlMode::Insert, mods(), named(NamedKey::Enter), &mut p);
    assert!(matches!(a, KeyAction::Submitted));
}

#[test]
fn clicks_and_drags() {
    let v = Value::new("hello big world");
    let (c, d) = handle_click(&v, Cursor::new(CursorState::Index(0)), ClickKind::Single, false, 4);
    assert_eq!((c.state(&v), d), (CursorState::Index(4), Some(Drag::Select)));
    let (c, _) = handle_click(&v, Cursor::new(CursorState::Index(2)), ClickKind::Single, true, 4);
    assert_eq!(c.state(&v), CursorState::Selection { start: 2, end: 4 });
    let (c, d) = handle_click(&v, Cursor::new(CursorState::Index(0)), ClickKind::Double, false, 7);
    assert_eq!((c.state(&v), d), (CursorState::Selection { start: 6, end: 9 }, Some(Drag::SelectWords { anchor: 7 })));
    let (c, d) = handle_click(&v, Cursor::new(CursorState::Index(0)), ClickKind::Triple, false, 7);
    assert_eq!((c.state(&v), d), (CursorState::Selection { start: 0, end: 15 }, None));
    let (c, changed) = handle_drag(&v, Cursor::new(CursorState::Index(2)), Drag::Select, 5);
    assert_eq!((c.state(&v), changed), (CursorState::Selection { start: 2, end: 5 }, true));
    let (c, _) = handle_drag(&v, Cursor::new(CursorState::Index(0)), Drag::SelectWords { anchor: 7 }, 12);
    assert_eq!(c.state(&v), CursorState::Selection { start: 6, end: 15 });
    let (c, _) = handle_drag(&v, Cursor::new(CursorState::Index(0)), Drag::SelectWords { anchor: 7 }, 1);
    assert_eq!(c.state(&v), CursorState::Selection { start: 0, end: 9 });
    let (_, changed) = handle_drag(&v, Cursor::new(CursorState::Selection { start: 2, end: 5 }), Drag::Select, 5);
    assert!(!changed);
}

#[test]
fn typing_replaces_the_selection() {
    let mut p = None;
    let sel = CursorState::Selection { start: 1, end: 2 };
    let (t, c, a) = press("abc", sel, ControlMode::Insert, mods(), typed('X'), &mut p);
    assert_eq!((t.as_str(), c), ("aXc", CursorState::Index(2)));
    assert!(matches!(a, KeyAction::Edited { ref contents, .. } if contents == "aXc"));
}
