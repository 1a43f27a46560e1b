use fatty::completion::{
    arg_scan_dir, cmd_scan_dir, compare_texts, complete, complete_arg_dumb, complete_cmd_dumb,
    complete_flags,
    current_word, line_before_cursor, path_query, try_complete_arg_dumb, DirEntryInfo, Placement,
};

fn entry(name: &str, is_dir: bool, is_executable: bool) -> DirEntryInfo {
    DirEntryInfo { name: name.to_string(), is_dir, is_executable }
}

fn listing() -> Vec<DirEntryInfo> {
    vec![
        entry("src", true, true),
        entry("sort.rs", false, false),
        entry(".hidden", false, false),
        entry("script", false, true),
        entry("README", false, false),
        entry("src", true, true),
    ]
}

#[test]
fn text_before_the_cursor() {
    assert_eq!(line_before_cursor("ls src/ma", 5), "ls sr");
    assert_eq!(line_before_cursor("ls", 100), "ls");
    // A cursor inside a character moves back to its start.
    assert_eq!(line_before_cursor("aé", 2), "a");
    assert_eq!(current_word("ls src/ma"), vec!['s', 'r', 'c', '/', 'm', 'a']);
    assert_eq!(current_word("ls "), Vec::<char>::new());
}

#[test]
fn words_split_at_the_last_slash() {
    let q = path_query(&['a', '/', 'b', '/', 'c']);
    assert_eq!(q.dir_path, "a/b/");
    assert_eq!(q.prefix, "c");
    let q = path_query(&['x']);
    assert_eq!(q.dir_path, "");
    assert_eq!(q.prefix, "x");
    assert_eq!(arg_scan_dir("cat s", 5), Some(".".to_string()));
    assert_eq!(arg_scan_dir("cat src/m", 9), Some("src/".to_string()));
    assert_eq!(arg_scan_dir("cat -v", 6), None);
    assert_eq!(cmd_scan_dir("./scr"), "./");
}

#[test]
fn arguments_complete_to_sorted_paths() {
    let l = listing();
    assert_eq!(complete_arg_dumb("cat", "cat s", 5, &l), vec!["script", "sort.rs", "src/"]);
    assert_eq!(complete_arg_dumb("cat", "cat ", 4, &l), vec!["README", "script", "sort.rs", "src/"]);
    assert_eq!(complete_arg_dumb("cat", "cat .h", 6, &l), vec![".hidden"]);
    assert_eq!(complete_arg_dumb("cat", "cat x/s", 7, &l), vec!["x/script", "x/sort.rs", "x/src/"]);
    assert_eq!(complete_arg_dumb("cat", "cat -", 5, &l), Vec::<String>::new());
}

#[test]
fn commands_complete_to_executables_and_directories() {
    let l = listing();
    assert_eq!(complete_cmd_dumb("s", &l), vec!["script", "src/"]);
    assert_eq!(complete_cmd_dumb("./s", &l), vec!["./script", "./src/"]);
    assert_eq!(complete_cmd_dumb("q", &l), Vec::<String>::new());
}

#[test]
fn texts_compare_like_strings() {
    for (a, b) in [("a", "b"), ("ab", "a"), ("", ""), ("Z", "a"), ("é", "z"), ("abc", "abd")] {
        let x: Vec<char> = a.chars().collect();
        let y: Vec<char> = b.chars().collect();
        let expected = if a < b {
            Placement::Before
        } else if a == b {
            Placement::Same
        } else {
            Placement::After
        };
        assert_eq!(compare_texts(&x, &y), expected, "{a} {b}");
    }
}

#[test]
fn blank_lines_have_no_argument_to_complete() {
    let l = listing();
    assert_eq!(try_complete_arg_dumb("cat", "   ", 3, &l), None);
    assert_eq!(try_complete_arg_dumb("cat", "", 0, &l), None);
    assert_eq!(try_complete_arg_dumb("cat", "  cat s", 2, &l), None);
    assert_eq!(
        try_complete_arg_dumb("cat", "cat s", 5, &l),
        Some(vec!["script".to_string(), "sort.rs".to_string(), "src/".to_string()])
    );
}

fn du_flags() -> Vec<String> {
    ["--help", "-a", "--all", "-c", "--total", "-h", "--human-readable", "--inodes", "-s",
        "--summarize", "-t", "--threshold", "--block-size", "-d", "--max-depth", "--version", "-V",
        "--all"]
        .iter()
        .map(|s| s.to_string())
        .collect()
}

#[test]
fn flags_complete_sorted_and_once() {
    let f = du_flags();
    assert_eq!(complete_flags(&f, &['-', '-', 'a']), vec!["--all"]);
    assert_eq!(complete_flags(&f, &['-', '-', 'h']), vec!["--help", "--human-readable"]);
    assert_eq!(complete_flags(&f, &['-', 'x']), Vec::<String>::new());
    assert_eq!(
        complete(Some(f.as_slice()), "du --t", 6, &listing()),
        vec!["--threshold", "--total"]
    );
    assert_eq!(complete(Some(f.as_slice()), "du s", 4, &listing()), vec!["script", "sort.rs", "src/"]);
    assert_eq!(complete(None, "vi s", 4, &listing()), Vec::<String>::new());
    // A line of blanks completes the empty word.
    assert_eq!(complete(Some(f.as_slice()), "  ", 2, &listing()), vec!["README", "script", "sort.rs", "src/"]);
}
