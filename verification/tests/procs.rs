use fatty::numbers::IntErrorKind;
use fatty::procs::{parse_stat, try_parse_stat, Process, State, StatError};

const STAT: &str = "1234 (my prog) S 1 1234 1234 34817 1234 4194304 100 0 0 0 7 3 0 0 20 0 1 0 100";

#[test]
fn reads_a_stat_line() {
    let p = parse_stat(1234, STAT).unwrap();
    assert_eq!(p.pid, 1234);
    assert_eq!(p.tcomm, "my prog");
    assert_eq!(p.state, State::Sleeping);
    // The parent and the terminal are both read from the third field after
    // the state.
    assert_eq!(p.ppid, 1234);
    assert_eq!(p.tty_nr, 1234);
    assert_eq!(p.utime, 7);
    assert_eq!(p.stime, 3);
}

#[test]
fn stat_errors() {
    assert!(matches!(parse_stat(1, "1 my prog S 1"), Err(StatError::NoCommand)));
    assert!(matches!(parse_stat(1, "1 my) prog S 1"), Err(StatError::NoCommand)));
    match parse_stat(1, "1 (x) Q 1 2") {
        Err(StatError::UnknownState(s)) => assert_eq!(s, "Q"),
        _ => panic!("expected an unknown state"),
    }
    assert!(matches!(
        parse_stat(1, "1 (x) R 1 x 3 4 5 6 7 8 9 10 11 12 13"),
        Err(StatError::BadNumber(IntErrorKind::InvalidDigit))
    ));
    assert!(matches!(
        parse_stat(1, "1 (x) R 1 -5 3 4 5 6 7 8 9 10 11 12 13"),
        Err(StatError::BadNumber(IntErrorKind::InvalidDigit))
    ));
}

#[test]
fn state_names_and_letters() {
    assert_eq!(State::Running.to_str(), "Running");
    assert_eq!(State::TracingStopped.to_str(), "TracingStopped");
    assert_eq!(State::SleepingD.to_string(), "D");
    assert_eq!(State::TracingStopped.to_string(), "t");
    assert_eq!(State::IdleKernel.to_string(), "I");
}

#[test]
fn terminal_device_numbers() {
    let p = Process {
        pid: 1,
        tcomm: String::new(),
        state: State::Running,
        ppid: 0,
        utime: 0,
        stime: 0,
        tty_nr: 34817,
    };
    assert_eq!(p.majmin(), (136, 1));
    let q = Process { tty_nr: 0x1234_5678, ..p };
    assert_eq!(q.majmin(), (0x56, 0x78 | (0x123 << 8)));
}

#[test]
fn short_or_odd_stat_lines_are_refused_before_reading() {
    assert!(try_parse_stat(1, "1 (x) S 1").is_none());
    assert!(try_parse_stat(1, "1 (x)").is_none());
    assert!(try_parse_stat(1, "1 (x)\u{e9}S 1 2 3").is_none());
    assert!(matches!(try_parse_stat(1, "no brackets"), Some(Err(StatError::NoCommand))));
    assert!(matches!(try_parse_stat(1234, STAT), Some(Ok(_))));
}
