use ch32rv::semihost::{
    exit_mode, is_semihosting_seq, semihost_call, semihosting_exit_code, ExitMode, SemihostCall, ADP_APPLICATION_EXIT,
    SEMI_EBREAK, SEMI_SLLI, SEMI_SRAI, SYS_EXIT, SYS_EXIT_EXTENDED, SYS_WRITE0, SYS_WRITEC,
};

#[test]
fn detects_semihosting_sequence() {
    assert!(is_semihosting_seq(SEMI_SLLI, SEMI_EBREAK, SEMI_SRAI));
    assert!(!is_semihosting_seq(SEMI_SLLI, 0x0000_0013, SEMI_SRAI));
    assert!(!is_semihosting_seq(0, SEMI_EBREAK, 0));
}

#[test]
fn exit_on_modes() {
    assert_eq!(exit_mode(None, Some(5)), Ok(ExitMode::Timeout(Some(5))));
    assert_eq!(exit_mode(Some("semihosting"), None), Ok(ExitMode::Semihosting { cap_secs: 60 }));
    assert_eq!(exit_mode(Some("semihosting"), Some(9)), Ok(ExitMode::Semihosting { cap_secs: 9 }));
    assert_eq!(exit_mode(Some("timeout=12"), None), Ok(ExitMode::Timeout(Some(12))));
    assert_eq!(exit_mode(Some("timeout=x"), None), Err("invalid --exit-on timeout value"));
    assert_eq!(
        exit_mode(Some("forever"), None),
        Err("--exit-on must be `semihosting` or `timeout=<seconds>`")
    );
}

#[test]
fn semihosting_calls_and_exit_codes() {
    assert_eq!(semihost_call(SYS_EXIT), SemihostCall::Exit);
    assert_eq!(semihost_call(SYS_EXIT_EXTENDED), SemihostCall::Exit);
    assert_eq!(semihost_call(SYS_WRITE0), SemihostCall::Write0);
    assert_eq!(semihost_call(SYS_WRITEC), SemihostCall::WriteC);
    assert_eq!(semihost_call(0x01), SemihostCall::Ignored);
    assert_eq!(semihosting_exit_code(SYS_EXIT, ADP_APPLICATION_EXIT, None), 0);
    assert_eq!(semihosting_exit_code(SYS_EXIT, 0x2_0023, None), 1);
    let block = [0x26, 0x00, 0x02, 0x00, 0x07, 0x00, 0x00, 0x00];
    assert_eq!(semihosting_exit_code(SYS_EXIT_EXTENDED, 0x2000_0000, Some(&block)), 7);
    assert_eq!(semihosting_exit_code(SYS_EXIT_EXTENDED, 0x2000_0000, Some(&block[..4])), 1);
    assert_eq!(semihosting_exit_code(SYS_EXIT_EXTENDED, 0x2000_0000, None), 1);
}
