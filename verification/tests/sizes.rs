use fatty::numbers::IntErrorKind;
use fatty::sizes::{
    decimal_string, emit, fmt, parse_size, parse_threshold, pct, scaled, trim, try_parse_size,
    try_parse_threshold, unit, DuOpts, SizeError,
};

fn opts() -> DuOpts {
    DuOpts {
        all: false,
        human: false,
        inodes: false,
        summarize: false,
        block_size: 1024,
        max_depth: None,
        threshold: None,
    }
}

#[test]
fn sizes_with_units() {
    assert_eq!(parse_size("512"), Ok(512));
    assert_eq!(parse_size(" 4K "), Ok(4096));
    assert_eq!(parse_size("2m"), Ok(2 * 1024 * 1024));
    assert_eq!(parse_size("1G"), Ok(1 << 30));
    assert_eq!(parse_size("3T"), Ok(3 << 40));
    assert_eq!(parse_size("1P"), Ok(1 << 50));
    // A trailing B counts bytes, so `KB` is not kilobytes.
    assert_eq!(parse_size("10B"), Ok(10));
    assert_eq!(parse_size("1KB"), Err(SizeError::Number(IntErrorKind::InvalidDigit)));
}

#[test]
fn size_errors() {
    assert_eq!(parse_size("5Q"), Err(SizeError::InvalidSuffix('Q')));
    assert_eq!(parse_size(""), Err(SizeError::Number(IntErrorKind::Empty)));
    assert_eq!(parse_size("K"), Err(SizeError::Number(IntErrorKind::Empty)));
    assert_eq!(parse_size("1.5K"), Err(SizeError::Number(IntErrorKind::InvalidDigit)));
}

#[test]
fn thresholds() {
    assert_eq!(parse_threshold("1K"), Ok(1024));
    assert_eq!(parse_threshold("-1K"), Ok(-1024));
    assert_eq!(parse_threshold("-x"), Err(SizeError::InvalidSuffix('x')));
}

#[test]
fn what_the_walk_reports() {
    let o = opts();
    assert!(emit(10, true, 3, &o));
    assert!(!emit(10, false, 3, &o));
    assert!(emit(10, false, 0, &o));
    let all = DuOpts { all: true, ..o };
    assert!(emit(10, false, 3, &all));
    let shallow = DuOpts { max_depth: Some(1), ..o };
    assert!(emit(10, true, 1, &shallow));
    assert!(!emit(10, true, 2, &shallow));
    let summary = DuOpts { summarize: true, max_depth: Some(5), ..o };
    assert!(emit(10, true, 0, &summary));
    assert!(!emit(10, true, 1, &summary));
    let at_least = DuOpts { threshold: Some(100), ..o };
    assert!(!emit(99, true, 0, &at_least));
    assert!(emit(100, true, 0, &at_least));
    let at_most = DuOpts { threshold: Some(-100), ..o };
    assert!(emit(100, true, 0, &at_most));
    assert!(!emit(101, true, 0, &at_most));
}

#[test]
fn units_and_scaling() {
    let o = opts();
    assert_eq!(unit(8, &o), 4096);
    assert_eq!(unit(8, &DuOpts { inodes: true, ..o }), 1);
    assert_eq!(scaled(4096, &o), 4);
    assert_eq!(scaled(4097, &o), 5);
    assert_eq!(scaled(0, &o), 0);
    assert_eq!(scaled(7, &DuOpts { inodes: true, ..o }), 7);
}

#[test]
fn free_space_columns() {
    assert_eq!(fmt(1_048_576, false), "1024");
    assert_eq!(fmt(1023, false), "0");
    assert_eq!(fmt(12345, true), "12345");
    assert_eq!(pct(0, 0), "-");
    assert_eq!(pct(1, 3), "34%");
    assert_eq!(pct(50, 100), "50%");
    assert_eq!(pct(u64::MAX, u64::MAX), "100%");
}

#[test]
fn decimals_and_trimming() {
    assert_eq!(decimal_string(0), "0");
    assert_eq!(decimal_string(10), "10");
    assert_eq!(decimal_string(u128::MAX), u128::MAX.to_string());
    assert_eq!(trim(&[' ', 'a', ' ', 'b', '\n']), vec!['a', ' ', 'b']);
    assert_eq!(trim(&[' ', '\t']), Vec::<char>::new());
}

#[test]
fn sizes_too_large_to_read_are_refused_before_reading() {
    assert!(try_parse_size("18446744073709551615K").is_none());
    assert_eq!(try_parse_size("2K"), Some(Ok(2048)));
    assert!(matches!(try_parse_size("2Q"), Some(Err(SizeError::InvalidSuffix('Q')))));
    assert!(try_parse_threshold("-9223372036854775808").is_none());
    assert!(try_parse_threshold("99999999999P").is_none());
    assert!(matches!(try_parse_threshold("99999999999999999999P"), Some(Err(SizeError::Number(IntErrorKind::PosOverflow)))));
    assert_eq!(try_parse_threshold("-1K"), Some(Ok(-1024)));
}

#[test]
fn files_reached_twice_count_once() {
    let mut seen = std::collections::HashSet::new();
    assert!(fatty::sizes::first_visit(&mut seen, true, 2, 10, 1));
    assert!(!fatty::sizes::first_visit(&mut seen, true, 2, 10, 1));
    assert!(fatty::sizes::first_visit(&mut seen, true, 2, 10, 2));
    assert!(fatty::sizes::first_visit(&mut seen, false, 2, 11, 1));
    assert!(!fatty::sizes::first_visit(&mut seen, false, 3, 11, 1));
    // A file with one link is counted every time it is reached.
    assert!(fatty::sizes::first_visit(&mut seen, false, 1, 12, 1));
    assert!(fatty::sizes::first_visit(&mut seen, false, 1, 12, 1));
    assert_eq!(seen.len(), 3);
}
