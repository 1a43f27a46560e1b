use fatty::expansion::{expand_tilde, expand_token, glob_or_literal, is_glob, Expansion};

#[test]
fn tilde_becomes_the_home_directory() {
    assert_eq!(expand_tilde("~", Some("/home/ann")), "/home/ann");
    assert_eq!(expand_tilde("~/src", Some("/home/ann")), "/home/ann/src");
    assert_eq!(expand_tilde("~bob", Some("/home/ann")), "~bob");
    assert_eq!(expand_tilde("a~/b", Some("/home/ann")), "a~/b");
    assert_eq!(expand_tilde("~/src", None), "~/src");
    assert_eq!(expand_tilde("", Some("/h")), "");
}

#[test]
fn glob_characters_make_a_pattern() {
    assert!(is_glob("*.rs"));
    assert!(is_glob("a?c"));
    assert!(is_glob("[ab]"));
    assert!(!is_glob("plain.txt"));
    assert!(!is_glob(""));
}

#[test]
fn tokens_expand_to_literals_or_patterns() {
    match expand_token("~/*.rs", Some("/h")) {
        Expansion::Glob(p) => assert_eq!(p, "/h/*.rs"),
        other => panic!("unexpected {:?}", other),
    }
    match expand_token("~", Some("/h")) {
        Expansion::Literal(w) => assert_eq!(w, "/h"),
        other => panic!("unexpected {:?}", other),
    }
    match expand_token("x", None) {
        Expansion::Literal(w) => assert_eq!(w, "x"),
        other => panic!("unexpected {:?}", other),
    }
}

#[test]
fn unmatched_patterns_stand_for_themselves() {
    assert_eq!(glob_or_literal("*.zz", vec![]), vec!["*.zz".to_string()]);
    assert_eq!(
        glob_or_literal("*.rs", vec!["a.rs".to_string(), "b.rs".to_string()]),
        vec!["a.rs".to_string(), "b.rs".to_string()]
    );
}
