use shell_bridge::frame::{error_frame, sentinel_frame, Origin, OutputLine};

#[test]
fn stdout_line_is_sent_verbatim() {
    let line = OutputLine::new(Origin::Stdout, "hello world".to_string());
    assert_eq!(line.frame(), "hello world");
}

#[test]
fn stderr_line_gets_prefix() {
    let line = OutputLine::new(Origin::Stderr, "oops".to_string());
    assert_eq!(line.frame(), "ERR: oops");
}

#[test]
fn empty_lines_keep_their_form() {
    assert_eq!(OutputLine::new(Origin::Stdout, String::new()).frame(), "");
    assert_eq!(OutputLine::new(Origin::Stderr, String::new()).frame(), "ERR: ");
}

#[test]
fn sentinel_text() {
    assert_eq!(sentinel_frame(), "---END---");
}

#[test]
fn error_frame_prefixes_text() {
    assert_eq!(error_frame("bash: not found"), "ERR: bash: not found");
}
