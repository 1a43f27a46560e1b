use fatty::search_path::{find_executable, has_slash, is_valid_executable, path_from_env};

#[test]
fn path_splits_at_colons() {
    assert_eq!(path_from_env(Some(b"/bin:/usr/bin")), vec![b"/bin".to_vec(), b"/usr/bin".to_vec()]);
    assert_eq!(
        path_from_env(Some(b"a::b:")),
        vec![b"a".to_vec(), Vec::new(), b"b".to_vec(), Vec::new()]
    );
    assert_eq!(path_from_env(Some(b"")), vec![Vec::<u8>::new()]);
    assert_eq!(path_from_env(None), vec![Vec::<u8>::new()]);
}

#[test]
fn executables_are_files_with_an_execute_bit() {
    assert!(is_valid_executable(Some((false, 0o755))));
    assert!(is_valid_executable(Some((false, 0o100))));
    assert!(is_valid_executable(Some((false, 0o001))));
    assert!(!is_valid_executable(Some((false, 0o644))));
    assert!(!is_valid_executable(Some((true, 0o755))));
    assert!(!is_valid_executable(None));
}

#[test]
fn commands_with_a_slash_name_their_file() {
    assert!(has_slash(b"./run"));
    assert!(has_slash(b"/bin/ls"));
    assert!(!has_slash(b"ls"));
    assert!(!has_slash(b""));
}

#[test]
fn the_first_runnable_entry_of_that_name_is_found() {
    let entries = vec![
        (b"cat".to_vec(), Some((false, 0o755))),
        (b"ls".to_vec(), Some((true, 0o755))),
        (b"ls".to_vec(), Some((false, 0o644))),
        (b"ls".to_vec(), Some((false, 0o755))),
        (b"ls".to_vec(), Some((false, 0o700))),
    ];
    assert_eq!(find_executable(&entries, b"ls"), Some(3));
    assert_eq!(find_executable(&entries, b"cat"), Some(0));
    assert_eq!(find_executable(&entries, b"vi"), None);
    assert_eq!(find_executable(&[], b"ls"), None);
}
