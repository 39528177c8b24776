use bfjit::sanitize::{sanitize, BracketError};

#[test]
fn keeps_only_commands_in_order() {
    assert_eq!(sanitize("a+[b-]c.,<>"), Ok(vec!['+', '[', '-', ']', '.', ',', '<', '>']));
}

#[test]
fn empty_text() {
    assert_eq!(sanitize(""), Ok(vec![]));
    assert_eq!(sanitize("hello"), Ok(vec![]));
}

#[test]
fn too_many_opening() {
    assert_eq!(sanitize("[[]"), Err(BracketError::TooManyOpening));
}

#[test]
fn too_few_closing() {
    assert_eq!(sanitize("[]]"), Err(BracketError::TooFewClosing));
}

#[test]
fn only_the_totals_are_compared() {
    assert_eq!(sanitize("]["), Ok(vec![']', '[']));
}

#[test]
fn multibyte_characters_are_read_byte_by_byte() {
    assert_eq!(sanitize("é+"), Ok(vec!['+']));
}
