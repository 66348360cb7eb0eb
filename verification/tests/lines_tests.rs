use relatable::parse_tag_lines;

#[test]
fn one_tag_per_line_in_file_order() {
    assert_eq!(parse_tag_lines("red\nblue\n"), vec!["red", "blue"]);
    assert_eq!(parse_tag_lines("red\nblue"), vec!["red", "blue"]);
}

#[test]
fn empty_text_has_no_tags() {
    assert_eq!(parse_tag_lines(""), Vec::<String>::new());
}

#[test]
fn an_empty_line_is_an_empty_tag() {
    assert_eq!(parse_tag_lines("\n"), vec![""]);
    assert_eq!(parse_tag_lines("a\n\nb"), vec!["a", "", "b"]);
}

#[test]
fn crlf_endings_are_stripped() {
    assert_eq!(parse_tag_lines("red\r\nblue\r\n"), vec!["red", "blue"]);
}

#[test]
fn a_carriage_return_without_newline_is_kept() {
    assert_eq!(parse_tag_lines("red\r"), vec!["red\r"]);
}

#[test]
fn tags_are_not_trimmed_or_deduplicated() {
    assert_eq!(parse_tag_lines(" red \n red \n"), vec![" red ", " red "]);
}
