use fatty::bolger::{scan_forms, Bolger, Parser, ScanState};

#[test]
fn writer_output() {
    let mut b = Bolger::new();
    assert_eq!(b.begin("table"), "(table ");
    assert_eq!(b.attr_str("id", "t"), " :id \"t\"");
    assert_eq!(b.str("cell"), " \"cell\" ");
    assert_eq!(b.begin("tr"), "(tr ");
    assert_eq!(b.end("tr"), ")");
    assert_eq!(b.end("table"), ")");
}

#[test]
fn reader_reads_pieces() {
    let mut p = Parser::new("  (row :id \"a\\\"b\\n\" 12.5 rest)");
    p.skip_ws();
    assert_eq!(p.peek_char(), Some('('));
    assert_eq!(p.expect('('), Ok(()));
    assert_eq!(p.read_ident(), Ok("row".to_string()));
    p.skip_ws();
    assert_eq!(p.next_char(), Some(':'));
    assert_eq!(p.read_ident(), Ok("id".to_string()));
    p.skip_ws();
    assert_eq!(p.read_string(), Ok("a\"b\n".to_string()));
    p.skip_ws();
    assert_eq!(p.read_number_text(), "12.5");
    assert_eq!(p.read_free_text(), " rest");
    assert_eq!(p.expect(')'), Ok(()));
    assert_eq!(p.next_char(), None);
    assert_eq!(p.peek_char(), None);
}

#[test]
fn reader_errors() {
    let mut p = Parser::new("x");
    assert_eq!(p.expect('('), Err("Expected '('".to_string()));
    let mut p = Parser::new(" x");
    assert_eq!(p.read_ident(), Err("Expected identifier".to_string()));
    let mut p = Parser::new("\"abc");
    assert_eq!(p.read_string(), Err("Unterminated string".to_string()));
    let mut p = Parser::new("\"ab\\");
    assert_eq!(p.read_string(), Err("Unterminated escape".to_string()));
    let mut p = Parser::new("abc");
    assert_eq!(p.read_string(), Err("Expected '\"'".to_string()));
    let mut p = Parser::new("-3-4x");
    assert_eq!(p.read_number_text(), "-3");
}

#[test]
fn carriage_returns_drop_the_next_character() {
    let mut p = Parser::new("\"a\r\nb\"");
    assert_eq!(p.read_string(), Ok("ab".to_string()));
}

#[test]
fn scanner_cuts_at_complete_forms() {
    let mut st = ScanState { p_stack: 0, q_flag: false, b_err: false };
    assert_eq!(scan_forms(&mut st, b"(a (b)) (c"), vec![7]);
    assert_eq!(st.p_stack, 1);
    // Brackets count inside quotes too: the quote closes the form here.
    assert_eq!(scan_forms(&mut st, b" \"x)\""), vec![5]);
    assert_eq!(st, ScanState { p_stack: 0, q_flag: false, b_err: false });
    assert_eq!(scan_forms(&mut st, b"\"x\" y"), vec![3]);
    assert_eq!(scan_forms(&mut st, b") (a)"), Vec::<usize>::new());
    assert!(st.b_err);
    assert_eq!(scan_forms(&mut st, b"(b)"), Vec::<usize>::new());
}
