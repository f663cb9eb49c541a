use spellcheck::clean_line;

#[test]
fn clean_line_with_already_cleaned_line() {
    let line = "i'm a clean-mf-line";
    assert_eq!(line, clean_line(line));
}

#[test]
fn clean_line_leaves_leading_and_trailing_spaces() {
    let line = " abc \n";
    assert_eq!(line, clean_line(line));
}

#[test]
fn clean_line_with_characters_to_remove() {
    let line = "abc-1 @#";
    assert_eq!(clean_line(line), "abc- ");
}

#[test]
fn clean_line_keeps_non_latin_letters_and_drops_digits() {
    assert_eq!(clean_line("изненада42, ok!"), "изненада ok");
}

#[test]
fn clean_line_of_empty_line_is_empty() {
    assert_eq!(clean_line(""), "");
}

#[test]
fn clean_line_keeps_tabs_and_apostrophes() {
    assert_eq!(clean_line("don't\tstop.\r"), "don't\tstop\r");
}
