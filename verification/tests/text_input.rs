use fatty::text_input::{Cursor, CursorState, Editor, Value};

fn editor(text: &str, state: CursorState) -> Editor {
    Editor::new(Value::new(text), Cursor::new(state))
}

fn parts(e: Editor) -> (String, CursorState) {
    let (v, c) = e.into_parts();
    let st = c.state(&v);
    (v.to_string(), st)
}

#[test]
fn values_hold_graphemes() {
    let v = Value::new("he\u{301}llo");
    assert_eq!(v.len(), 5);
    assert!(!v.is_empty());
    assert!(Value::new("").is_empty());
    assert_eq!(v.to_string(), "he\u{301}llo");
    assert_eq!(v.select(1, 3).to_string(), "e\u{301}l");
    assert_eq!(v.until(2).to_string(), "he\u{301}");
    assert_eq!(v.until(99).to_string(), "he\u{301}llo");
    assert_eq!(v.duplicate().to_string(), v.to_string());
}

#[test]
fn words_start_and_end() {
    let v = Value::new("hello big world");
    assert_eq!(v.previous_start_of_word(15), 10);
    assert_eq!(v.previous_start_of_word(10), 6);
    assert_eq!(v.previous_start_of_word(5), 0);
    assert_eq!(v.previous_start_of_word(0), 0);
    assert_eq!(v.next_end_of_word(0), 5);
    assert_eq!(v.next_end_of_word(5), 9);
    assert_eq!(v.next_end_of_word(15), 15);
}

#[test]
fn inserting_and_removing() {
    let mut v = Value::new("ac");
    v.insert(1, 'b');
    assert_eq!(v.to_string(), "abc");
    v.insert_many(3, Value::new("de"));
    assert_eq!(v.to_string(), "abcde");
    v.remove(0);
    assert_eq!(v.to_string(), "bcde");
    v.remove_many(1, 3);
    assert_eq!(v.to_string(), "be");
    // A combining mark joins the grapheme before it.
    let mut w = Value::new("e");
    w.insert(1, '\u{301}');
    assert_eq!(w.len(), 1);
}

#[test]
fn removing_what_was_inserted_gives_the_text_back() {
    let mut v = Value::new("hello world");
    v.insert_many(5, Value::new(", big"));
    assert_eq!(v.to_string(), "hello, big world");
    v.remove_many(5, 10);
    assert_eq!(v.to_string(), "hello world");
}

#[test]
fn cursor_moves() {
    let v = Value::new("abc def");
    let mut c = Cursor::new(CursorState::Index(2));
    c.move_right(&v);
    assert_eq!(c.state(&v), CursorState::Index(3));
    c.move_left(&v);
    assert_eq!(c.state(&v), CursorState::Index(2));
    c.move_to(100);
    assert_eq!(c.state(&v), CursorState::Index(7));
    c.move_left_by_words(&v);
    assert_eq!(c.state(&v), CursorState::Index(4));
    c.move_right_by_words(&v);
    assert_eq!(c.state(&v), CursorState::Index(7));
    c.select_range(1, 3);
    assert_eq!(c.selection(&v), Some((1, 3)));
    c.move_right(&v);
    assert_eq!(c.state(&v), CursorState::Index(3));
    c.select_range(3, 1);
    assert_eq!(c.selection(&v), Some((1, 3)));
    c.move_left(&v);
    assert_eq!(c.state(&v), CursorState::Index(1));
    c.select_left(&v);
    assert_eq!(c.state(&v), CursorState::Selection { start: 1, end: 0 });
    c.select_right(&v);
    assert_eq!(c.state(&v), CursorState::Index(1));
    c.select_all(&v);
    assert_eq!(c.selection(&v), Some((0, 7)));
    assert_eq!(c.start(&v), 0);
    assert_eq!(c.end(&v), 7);
    c.move_to(0);
    c.move_left(&v);
    assert_eq!(c.state(&v), CursorState::Index(0));
    let mut d = Cursor::new(CursorState::Index(0));
    d.select_right_by_words(&v);
    assert_eq!(d.state(&v), CursorState::Selection { start: 0, end: 3 });
    d.select_left_by_words(&v);
    assert_eq!(d.state(&v), CursorState::Index(0));
    assert_eq!(Cursor::default().state(&v), CursorState::Index(0));
}

#[test]
fn moving_right_then_left_comes_back() {
    let v = Value::new("abc");
    for i in 0..3 {
        let mut c = Cursor::new(CursorState::Index(i));
        c.move_right(&v);
        c.move_left(&v);
        assert_eq!(c.state(&v), CursorState::Index(i));
    }
}

#[test]
fn editing() {
    let mut e = editor("ac", CursorState::Index(1));
    e.insert('b');
    assert_eq!(e.contents(), "abc");
    assert_eq!(parts(e), ("abc".to_string(), CursorState::Index(2)));

    let mut e = editor("abc", CursorState::Index(2));
    e.backspace();
    assert_eq!(parts(e), ("ac".to_string(), CursorState::Index(1)));

    let mut e = editor("abc", CursorState::Index(0));
    e.backspace();
    assert_eq!(parts(e), ("abc".to_string(), CursorState::Index(0)));

    let mut e = editor("abc", CursorState::Index(1));
    e.delete();
    assert_eq!(parts(e), ("ac".to_string(), CursorState::Index(1)));

    let mut e = editor("abc", CursorState::Index(3));
    e.delete();
    assert_eq!(parts(e), ("abc".to_string(), CursorState::Index(3)));

    let mut e = editor("hello world", CursorState::Selection { start: 5, end: 11 });
    e.paste(Value::new("!"));
    assert_eq!(parts(e), ("hello!".to_string(), CursorState::Index(6)));

    let mut e = editor("abcd", CursorState::Selection { start: 3, end: 1 });
    e.insert('x');
    assert_eq!(parts(e), ("axd".to_string(), CursorState::Index(2)));

    let mut e = editor("abcd", CursorState::Selection { start: 1, end: 3 });
    e.delete();
    assert_eq!(e.cursor().state(&Value::new("ad")), CursorState::Index(1));
    assert_eq!(e.contents(), "ad");
}

#[test]
fn pasting_nothing_at_the_caret_changes_nothing() {
    let mut e = editor("abc", CursorState::Index(1));
    e.paste(Value::new(""));
    assert_eq!(parts(e), ("abc".to_string(), CursorState::Index(1)));
}

#[test]
fn a_value_gives_back_the_text_it_was_built_from() {
    for text in ["", "plain", "h\u{e9}llo \u{1f44d}\u{1f3fd}", "e\u{301}\u{301}x"] {
        assert_eq!(Value::new(text).to_string(), text);
    }
}

#[test]
fn typing_over_a_selection_replaces_it() {
    let mut c = Cursor::new(CursorState::Index(0));
    c.select_range(1, 2);
    let mut e = Editor::new(Value::new("abc"), c);
    e.insert('X');
    assert_eq!(parts(e), ("aXc".to_string(), CursorState::Index(2)));
}
