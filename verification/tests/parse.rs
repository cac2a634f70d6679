use aim::parse::{get_indent_level, parse_module, IndentBlock, ParseError};

#[test]
fn parse_simple_text() {
    let text = "
a
	b
	c
		d
	e
		f
g
		"
    .trim();

    let result = IndentBlock::parse_text(text).unwrap();

    // Top level
    assert!(result.deep_count == 7);
    assert!(result.text == "");
    assert!(result.children.len() == 2);
    assert!(result.line_number == 0);

    // "a"
    assert!(result.children[0].deep_count == 5);
    assert!(result.children[0].text == "a");
    assert!(result.children[0].children.len() == 3);
    assert!(result.children[0].line_number == 1);

    // "b"
    assert!(result.children[0].children[0].deep_count == 0);
    assert!(result.children[0].children[0].text == "b");
    assert!(result.children[0].children[0].children.len() == 0);
    assert!(result.children[0].children[0].line_number == 2);

    // "c"
    assert!(result.children[0].children[1].deep_count == 1);
    assert!(result.children[0].children[1].text == "c");
    assert!(result.children[0].children[1].children.len() == 1);
    assert!(result.children[0].children[1].line_number == 3);

    // "d"
    assert!(result.children[0].children[1].children[0].deep_count == 0);
    assert!(result.children[0].children[1].children[0].text == "d");
    assert!(result.children[0].children[1].children[0].children.len() == 0);
    assert!(result.children[0].children[1].children[0].line_number == 4);

    // "e"
    assert!(result.children[0].children[2].deep_count == 1);
    assert!(result.children[0].children[2].text == "e");
    assert!(result.children[0].children[2].children.len() == 1);
    assert!(result.children[0].children[2].line_number == 5);

    // "f"
    assert!(result.children[0].children[2].children[0].deep_count == 0);
    assert!(result.children[0].children[2].children[0].text == "f");
    assert!(result.children[0].children[2].children[0].children.len() == 0);
    assert!(result.children[0].children[2].children[0].line_number == 6);

    // "g"
    assert!(result.children[1].deep_count == 0);
    assert!(result.children[1].text == "g");
    assert!(result.children[1].children.len() == 0);
    assert!(result.children[1].line_number == 7);

    assert!(result.to_string() == text);
}

#[test]
fn indent_level_counts_leading_tabs() {
    assert_eq!(get_indent_level(""), 0);
    assert_eq!(get_indent_level("a\tb"), 0);
    assert_eq!(get_indent_level("\t\ta\t"), 2);
    assert_eq!(get_indent_level(" \ta"), 0);
}

#[test]
fn comments_and_blank_lines_are_dropped() {
    let lines = parse_module("# title\na # first\n\n\t\n\tb\t \n#\n\t# only a comment\nc");
    assert_eq!(lines.len(), 3);
    assert_eq!(lines[0].text, "a");
    assert_eq!(lines[0].line_number, 2);
    assert_eq!(lines[0].indent_level, 0);
    assert_eq!(lines[1].text, "b");
    assert_eq!(lines[1].line_number, 5);
    assert_eq!(lines[1].indent_level, 1);
    assert_eq!(lines[2].text, "c");
    assert_eq!(lines[2].line_number, 8);
    assert_eq!(lines[2].indent_level, 0);
}

#[test]
fn empty_text_is_rejected() {
    assert_eq!(IndentBlock::parse_text("").err(), Some(ParseError::Empty));
    assert_eq!(IndentBlock::parse_text(" \n\t\n# nothing\n").err(), Some(ParseError::Empty));
}

#[test]
fn indentation_jump_is_rejected() {
    assert_eq!(
        IndentBlock::parse_text("a\n\t\tb").err(),
        Some(ParseError::Indentation { line_number: 2 })
    );
    assert_eq!(
        IndentBlock::parse_text("\ta\nb").err(),
        Some(ParseError::Indentation { line_number: 1 })
    );
    assert_eq!(
        IndentBlock::parse_text("a\n\tb\n\t\tc\n\n\t\t\t\td\n\t\t\t\t\t\te").err(),
        Some(ParseError::Indentation { line_number: 5 })
    );
    assert!(IndentBlock::parse_text("a\n\tb\n\t\tc\nd").is_ok());
}

#[test]
fn canonical_text_round_trips() {
    let text = "a x\n\tb\n\t\tc d\n\te\nf";
    assert_eq!(IndentBlock::parse_text(text).unwrap().to_string(), text);
}

#[test]
fn serialization_normalizes_spacing() {
    let tree = IndentBlock::parse_text("\n\na   # one\n\t  b  \n\n").unwrap();
    assert_eq!(tree.to_string(), "a\n\tb");
}

#[test]
fn root_holds_no_line() {
    let root = IndentBlock::parse_text("a\n\tb").unwrap();
    assert_eq!(root.text, "");
    assert_eq!(root.line_number, 0);
    assert_eq!(root.deep_count, 2);
    assert_eq!(root.children[0].deep_count, 1);
}
