use shelve::{is_broken_pipe, ErrorCause};

#[test]
fn a_broken_pipe_anywhere_in_the_chain_counts() {
    assert!(is_broken_pipe(&[ErrorCause::BrokenPipe]));
    assert!(is_broken_pipe(&[ErrorCause::NotIo, ErrorCause::BrokenPipe]));
    assert!(is_broken_pipe(&[ErrorCause::NotIo, ErrorCause::OtherIo, ErrorCause::BrokenPipe]));
}

#[test]
fn other_errors_are_not_a_broken_pipe() {
    assert!(!is_broken_pipe(&[]));
    assert!(!is_broken_pipe(&[ErrorCause::NotIo]));
    assert!(!is_broken_pipe(&[ErrorCause::OtherIo, ErrorCause::NotIo]));
}
