use fatty::exit_status::{
    exit_code_from_reason, exit_notice, signal_to_string, status_label, ExitReason, Signal, SIGKILL,
    SIGSEGV,
};

#[test]
fn exit_codes_follow_the_shell_convention() {
    assert_eq!(exit_code_from_reason(&ExitReason::Normal(3)), 3);
    assert_eq!(exit_code_from_reason(&ExitReason::Normal(256 + 7)), 7);
    assert_eq!(exit_code_from_reason(&ExitReason::Normal(-1)), 255);
    assert_eq!(exit_code_from_reason(&ExitReason::Signal { signal: Signal(SIGKILL), cored: false }), 137);
    assert_eq!(exit_code_from_reason(&ExitReason::Signal { signal: Signal(127), cored: false }), 255);
    assert_eq!(exit_code_from_reason(&ExitReason::Signal { signal: Signal(200), cored: false }), 255);
    assert_eq!(exit_code_from_reason(&ExitReason::Signal { signal: Signal(-3), cored: false }), 255);
    assert_eq!(exit_code_from_reason(&ExitReason::Unknown { sigval: Some(40), cored: true }), 1);
}

#[test]
fn wait_status_gives_the_reason() {
    assert_eq!(ExitReason::from_wait(0x0300, None, false, Some(3)), ExitReason::Normal(3));
    assert_eq!(
        ExitReason::from_wait(0x8b, Some(11), true, None),
        ExitReason::Signal { signal: Signal(SIGSEGV), cored: true }
    );
    assert_eq!(
        ExitReason::from_wait(40, Some(40), false, None),
        ExitReason::Unknown { sigval: Some(40), cored: false }
    );
    assert_eq!(
        ExitReason::from_wait(0x80, None, false, None),
        ExitReason::Unknown { sigval: None, cored: true }
    );
}

#[test]
fn signals_have_words() {
    assert_eq!(signal_to_string(Signal(SIGKILL)), "Murdered");
    assert_eq!(signal_to_string(Signal(SIGSEGV)), "Segmentation fault");
    assert_eq!(signal_to_string(Signal(6)), "Aborted");
    assert_eq!(signal_to_string(Signal(1)), "Hanged up");
    assert_eq!(signal_to_string(Signal(10)), "Unknown");
}

#[test]
fn status_labels() {
    assert_eq!(status_label(None), "Running");
    assert_eq!(status_label(Some(ExitReason::Normal(0))), "0");
    assert_eq!(status_label(Some(ExitReason::Normal(-12))), "-12");
    assert_eq!(status_label(Some(ExitReason::Normal(i32::MIN))), "-2147483648");
    assert_eq!(
        status_label(Some(ExitReason::Signal { signal: Signal(SIGSEGV), cored: true })),
        "Segmentation fault (cored)"
    );
    assert_eq!(status_label(Some(ExitReason::Unknown { sigval: Some(40), cored: false })), "Signal(40)");
    assert_eq!(status_label(Some(ExitReason::Unknown { sigval: None, cored: false })), "Exited (unknown)");
}

#[test]
fn exit_notices() {
    assert_eq!(exit_notice(ExitReason::Normal(1)), "\n");
    assert_eq!(exit_notice(ExitReason::Signal { signal: Signal(2), cored: false }), "Interrupted\n");
    assert_eq!(
        exit_notice(ExitReason::Unknown { sigval: Some(34), cored: true }),
        "Signal(34) (core dumped\n"
    );
}
