use downstairs::mode::{Mode, ModeError};

#[test]
fn mode_reads_both_words_in_any_case() {
    assert_eq!(Mode::from_str("ro"), Ok(Mode::Ro));
    assert_eq!(Mode::from_str("rw"), Ok(Mode::Rw));
    assert_eq!(Mode::from_str("RO"), Ok(Mode::Ro));
    assert_eq!(Mode::from_str("Rw"), Ok(Mode::Rw));
}

#[test]
fn mode_refuses_other_words() {
    assert_eq!(Mode::from_str(""), Err(ModeError));
    assert_eq!(Mode::from_str("r"), Err(ModeError));
    assert_eq!(Mode::from_str("rwx"), Err(ModeError));
    assert_eq!(Mode::from_str("read-only"), Err(ModeError));
}

#[test]
fn mode_from_lowercase_is_case_sensitive() {
    assert_eq!(Mode::from_lowercase("ro"), Ok(Mode::Ro));
    assert_eq!(Mode::from_lowercase("RO"), Err(ModeError));
}

#[test]
fn mode_error_says_what_is_wrong() {
    assert_eq!(ModeError.message(), "not a valid mode!");
    assert_eq!(Mode::from_str("wr").unwrap_err().message(), "not a valid mode!");
}
