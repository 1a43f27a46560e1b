use fatty::fatty_syntax::{self, Command, LineCol, Token};
use fatty::marish_syntax::{self, escape, str_to_op, Operator};
use fatty::shell_syntax;

#[test]
fn tokens_and_commands_print_their_words() {
    let t = Token::String("a b".to_string());
    assert_eq!(t.to_string(), "a b");
    assert_eq!(Token::Word("ls".to_string()).as_str(), "ls");
    let c = Command {
        lc: LineCol(1, 0, 9),
        argv: vec![Token::Word("echo".to_string()), Token::String("hi there".to_string())],
    };
    assert_eq!(c.to_string(), "echo hi there");
    let empty = Command { lc: LineCol(1, 0, 0), argv: vec![] };
    assert_eq!(empty.to_string(), "");
    let s = shell_syntax::Command { argv: vec![Token::Word("a".to_string()), Token::Word("b".to_string())] };
    assert_eq!(s.to_string(), "a b");
}

#[test]
fn backslashes_keep_the_next_character() {
    assert_eq!(fatty_syntax::unescape_dq(r#"a\"b"#), "a\"b");
    assert_eq!(fatty_syntax::unescape_dq(r"\\"), "\\");
    assert_eq!(fatty_syntax::unescape_unquoted(r"a\ b"), "a b");
    assert_eq!(fatty_syntax::unescape_unquoted(r"end\"), "end");
    assert_eq!(fatty_syntax::unescape_dq("plain"), "plain");
    assert_eq!(shell_syntax::unescape_dq(r"x\yz"), "xyz");
    assert_eq!(shell_syntax::unescape_unquoted(r"\n"), "n");
}

#[test]
fn marish_escape_sequences() {
    assert_eq!(marish_syntax::unescape_dq(r"a\tb\n").unwrap(), "a\tb\n");
    assert_eq!(marish_syntax::unescape_dq(r"\x41\o101\0").unwrap(), "AA\0");
    assert_eq!(marish_syntax::unescape_unquoted(r"\a\b\r\v\f").unwrap(), "\x07\x08\r\x0B\x0C");
    assert_eq!(marish_syntax::unescape_unquoted("no escapes").unwrap(), "no escapes");
    assert_eq!(
        marish_syntax::unescape_dq(r"bad\q").unwrap_err(),
        r"Escape sequence in string bad\q not supported"
    );
    assert_eq!(
        marish_syntax::unescape_dq(r"trailing\").unwrap_err(),
        r"Escape sequence in string trailing\ not supported"
    );
    assert!(marish_syntax::unescape_dq(r"\x4").is_err());
    assert!(marish_syntax::unescape_dq(r"\o78").is_err());
}

#[test]
fn single_escapes() {
    let cs: Vec<char> = r"x41rest".chars().collect();
    let mut out = Vec::new();
    assert_eq!(escape(&cs, 0, &mut out), Some(3));
    assert_eq!(out, vec!['A']);
    assert_eq!(escape(&cs, 3, &mut out), Some(4));
    assert_eq!(out, vec!['A', '\r']);
    assert_eq!(escape(&cs, 4, &mut out), None);
    assert_eq!(escape(&cs, 99, &mut out), None);
}

#[test]
fn operator_spellings() {
    assert_eq!(str_to_op("+"), Operator::Add);
    assert_eq!(str_to_op("-"), Operator::Sub);
    assert_eq!(str_to_op("*"), Operator::Mul);
    assert_eq!(str_to_op("/"), Operator::Div);
    assert_eq!(str_to_op("-eq"), Operator::Eq);
    assert_eq!(str_to_op("-ne"), Operator::Ne);
    assert_eq!(str_to_op("-lt"), Operator::Lt);
    assert_eq!(str_to_op("-le"), Operator::Le);
    assert_eq!(str_to_op("-gt"), Operator::Gt);
    assert_eq!(str_to_op("-ge"), Operator::Ge);
    assert_eq!(str_to_op("-lk"), Operator::Like);
    assert_eq!(str_to_op("-nk"), Operator::NotLike);
}

#[test]
fn documented_escape_example_gives_escape_character() {
    assert_eq!(marish_syntax::unescape_dq(r"test*\x1b[m").unwrap(), "test*\x1b[m");
}
