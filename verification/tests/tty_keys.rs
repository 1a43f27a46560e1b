use fatty::tty_keys::{key_bytes, tty_input, TtyKey};

#[test]
fn named_keys_send_their_sequences() {
    assert_eq!(tty_input(true, TtyKey::Enter, Some("\r")), Some(b"\r".to_vec()));
    assert_eq!(tty_input(true, TtyKey::Backspace, None), Some(b"\x7f".to_vec()));
    assert_eq!(tty_input(true, TtyKey::ArrowUp, None), Some(b"\x1b[A".to_vec()));
    assert_eq!(tty_input(true, TtyKey::Delete, None), Some(b"\x1b[3~".to_vec()));
    assert_eq!(tty_input(true, TtyKey::F1, None), Some(b"\x1bOP".to_vec()));
    assert_eq!(tty_input(true, TtyKey::F12, None), Some(b"\x1b[24~".to_vec()));
    assert_eq!(key_bytes(TtyKey::F9), Some(b"\x1b[20~".to_vec()));
    assert_eq!(key_bytes(TtyKey::Other), None);
}

#[test]
fn other_keys_send_their_text() {
    assert_eq!(tty_input(true, TtyKey::Other, Some("é")), Some("é".as_bytes().to_vec()));
    assert_eq!(tty_input(true, TtyKey::Other, None), None);
    assert_eq!(tty_input(false, TtyKey::Enter, Some("x")), None);
}
