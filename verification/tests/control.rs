use fatty::control::{update, ControlMessage, ControlMode, ControlState};

fn history() -> Vec<String> {
    vec!["ls".to_string(), "cd src".to_string(), "make".to_string()]
}

#[test]
fn starts_in_normal_mode_on_a_fresh_line() {
    let s = ControlState::new();
    assert_eq!(s.mode, ControlMode::Normal);
    assert_eq!(s.history_cursor, None);
}

#[test]
fn walks_the_history() {
    let h = history();
    let mut s = ControlState::new();
    let mut input = String::from("typed");
    update(&mut s, &mut input, &h, ControlMessage::HistoryUp);
    assert_eq!((s.history_cursor, input.as_str()), (Some(2), "make"));
    update(&mut s, &mut input, &h, ControlMessage::HistoryUp);
    assert_eq!((s.history_cursor, input.as_str()), (Some(1), "cd src"));
    update(&mut s, &mut input, &h, ControlMessage::HistoryUp);
    update(&mut s, &mut input, &h, ControlMessage::HistoryUp);
    assert_eq!((s.history_cursor, input.as_str()), (Some(0), "ls"));
    update(&mut s, &mut input, &h, ControlMessage::HistoryDown);
    update(&mut s, &mut input, &h, ControlMessage::HistoryDown);
    assert_eq!((s.history_cursor, input.as_str()), (Some(2), "make"));
    update(&mut s, &mut input, &h, ControlMessage::HistoryDown);
    assert_eq!((s.history_cursor, input.as_str()), (None, ""));
    update(&mut s, &mut input, &h, ControlMessage::HistoryDown);
    assert_eq!((s.history_cursor, input.as_str()), (None, ""));
}

#[test]
fn up_then_down_returns_to_a_fresh_line() {
    let h = history();
    let mut s = ControlState::new();
    let mut input = String::from("draft");
    update(&mut s, &mut input, &h, ControlMessage::HistoryUp);
    update(&mut s, &mut input, &h, ControlMessage::HistoryDown);
    assert_eq!((s.history_cursor, input.as_str()), (None, ""));
}

#[test]
fn empty_history_and_mode_changes() {
    let mut s = ControlState::new();
    let mut input = String::from("x");
    update(&mut s, &mut input, &Vec::new(), ControlMessage::HistoryUp);
    assert_eq!((s.history_cursor, input.as_str()), (None, "x"));
    update(&mut s, &mut input, &history(), ControlMessage::ChangeMode(ControlMode::Insert));
    assert_eq!(s.mode, ControlMode::Insert);
    assert_eq!(input, "x");
}
