use shelve::parse_delimiter;

#[test]
fn comma_and_tab_are_delimiters() {
    assert_eq!(parse_delimiter(","), Ok(','));
    assert_eq!(parse_delimiter("\t"), Ok('\t'));
    assert_eq!(parse_delimiter(";"), Ok(';'));
}

#[test]
fn a_multibyte_character_is_a_single_character() {
    assert_eq!(parse_delimiter("é"), Ok('é'));
}

#[test]
fn empty_or_long_delimiters_are_rejected() {
    let message = "delimiter must be a single character".to_owned();
    assert_eq!(parse_delimiter(""), Err(message.clone()));
    assert_eq!(parse_delimiter(",,"), Err(message.clone()));
    assert_eq!(parse_delimiter("éé"), Err(message));
}

#[test]
fn csv_syntax_characters_are_rejected() {
    assert_eq!(
        parse_delimiter("\""),
        Err("'\"' is not a valid delimiter: it collides with CSV syntax (quote or newline)".to_owned())
    );
    assert_eq!(
        parse_delimiter("\n"),
        Err("'\n' is not a valid delimiter: it collides with CSV syntax (quote or newline)".to_owned())
    );
    assert_eq!(
        parse_delimiter("\r"),
        Err("'\r' is not a valid delimiter: it collides with CSV syntax (quote or newline)".to_owned())
    );
}
