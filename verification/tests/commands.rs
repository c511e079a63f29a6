use simple_calc::calculator::{is_blank_text, is_exit_command};

#[test]
fn exit_words_end_the_session() {
    assert!(is_exit_command("exit"));
    assert!(is_exit_command("  quit \n"));
    assert!(!is_exit_command("exits"));
    assert!(!is_exit_command("e xit"));
    assert!(!is_exit_command("1 + 1"));
    assert!(!is_exit_command(""));
}

#[test]
fn blank_text() {
    assert!(is_blank_text(""));
    assert!(is_blank_text(" \t\r\n\u{a0}"));
    assert!(!is_blank_text(" 1 "));
}
