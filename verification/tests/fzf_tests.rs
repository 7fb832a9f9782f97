use git_projects::fzf::{selection, FzfError};

#[test]
fn a_pick_is_read_from_the_output() {
    assert_eq!(selection(Some(0), b"github.com/x/y\n"), Ok(Some("github.com/x/y".to_string())));
}

#[test]
fn an_empty_pick_is_no_selection() {
    assert_eq!(selection(Some(0), b" \n"), Ok(None));
}

#[test]
fn no_match_and_interrupt_are_cancellations() {
    assert_eq!(selection(Some(1), b"ignored"), Ok(None));
    assert_eq!(selection(Some(130), b""), Ok(None));
}

#[test]
fn other_exit_codes_and_signals_are_errors() {
    assert_eq!(selection(Some(2), b""), Err(FzfError::Exit(2)));
    assert_eq!(selection(None, b""), Err(FzfError::Signal));
}
