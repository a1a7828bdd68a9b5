use lib::shell::{
    parse_u64, process_command, shell_exited, EditAction, InitDecision, LineEditor, ShellAction,
};

#[test]
fn shell_commands() {
    assert_eq!(process_command(b""), ShellAction::Nothing);
    assert_eq!(process_command(b"help"), ShellAction::Help);
    assert_eq!(process_command(b"exit"), ShellAction::Exit);
    assert_eq!(process_command(b"echo hi there"), ShellAction::Echo(b"hi there".to_vec()));
    assert_eq!(process_command(b"echo "), ShellAction::Echo(Vec::new()));
    assert_eq!(process_command(b"sleep 2500"), ShellAction::Sleep { seconds: 2, micros: 500000 });
    assert_eq!(process_command(b"sleep x"), ShellAction::Unsupported);
    assert_eq!(process_command(b"echo"), ShellAction::Unsupported);
    assert_eq!(process_command(b"helpme"), ShellAction::Unsupported);
}

#[test]
fn parse_numbers_like_from_str() {
    assert_eq!(parse_u64(b"0"), Some(0));
    assert_eq!(parse_u64(b"+42"), Some(42));
    assert_eq!(parse_u64(b"18446744073709551615"), Some(u64::MAX));
    assert_eq!(parse_u64(b"18446744073709551616"), None);
    assert_eq!(parse_u64(b""), None);
    assert_eq!(parse_u64(b"+"), None);
    assert_eq!(parse_u64(b"-1"), None);
    assert_eq!(parse_u64(b"1 "), None);
    for s in ["7", "123456", "+9", "00012"] {
        assert_eq!(parse_u64(s.as_bytes()), s.parse::<u64>().ok());
    }
}

#[test]
fn line_editing() {
    let mut e = LineEditor::new();
    assert_eq!(e.feed(8), EditAction::Ignore);
    assert_eq!(e.feed(b'a'), EditAction::Echo(b'a'));
    assert_eq!(e.feed(b'b'), EditAction::Echo(b'b'));
    assert_eq!(e.feed(8), EditAction::Erase);
    assert_eq!(e.feed(b'c'), EditAction::Echo(b'c'));
    assert_eq!(e.feed(b'\n'), EditAction::Submit(b"ac".to_vec()));
    assert_eq!(e.feed(b'\n'), EditAction::Submit(Vec::new()));
}

#[test]
fn line_is_limited() {
    let mut e = LineEditor::new();
    for _ in 0..70 {
        assert!(matches!(e.feed(b'x'), EditAction::Echo(_)));
    }
    assert_eq!(e.feed(b'y'), EditAction::Ignore);
    assert_eq!(e.feed(b'\n'), EditAction::Submit(vec![b'x'; 70]));
}

#[test]
fn supervisor_restarts_the_shell() {
    assert_eq!(shell_exited(0, 0), InitDecision::Restart(1));
    assert_eq!(shell_exited(8, 0), InitDecision::Restart(9));
    assert_eq!(shell_exited(9, 0), InitDecision::TooManyExits);
    assert_eq!(shell_exited(3, 5), InitDecision::Fail(5));
}
