use aim::parse::{parse_module, ParseError, TextLine};
use aim::parse_nodes::lines::{
    parse_module_text, parse_node, read_property, write_child_line, write_forward, write_line, ParseResults,
    Peeker, PeekerResult,
};
use aim::parse_nodes::sine::parse;

fn texts(result: &ParseResults) -> Vec<String> {
    result.lines.iter().map(|line| format!("{}{}", "\t".repeat(line.indent_level), line.text)).collect()
}

#[test]
fn mod_parsing_text() {
    let result = parse_module_text(
        "
sine
	frequency 440
out
	amplitude 1
		"
        .trim(),
    )
    .unwrap();

    assert!(result.lines.len() == 4);
    for x in &result.lines {
        println!("x.text={:?}, x.indent_level={:?}", x.text, x.indent_level);
    }
    assert!(result.lines.len() == 4);
    assert!(result.lines[0].indent_level == 0);
    assert!(result.lines[1].indent_level == 1);
    assert!(result.lines[2].indent_level == 0);
    assert!(result.lines[3].indent_level == 1);
    assert!(result.lines[0].text == "sine");
    println!("result.lines[1].text={:?}", result.lines[0].text);
    assert!(result.lines[1].text == "frequency 440");
    println!("result.lines[2].text={:?}", result.lines[2].text);
    assert!(result.lines[2].text == "out  # ERROR: Unknown node");
    assert!(result.lines[3].text == "amplitude 1");
}

#[test]
fn consuming_errors() {
    let parsed: Vec<TextLine> = parse_module(
        "
a
	b
		c
	d
e
		"
        .trim(),
    );
    let mut peeker = Peeker::new(parsed);
    let mut result = ParseResults::new();
    peeker.consume_with_error(&mut result, "Not working");
    assert!(result.lines.len() == 4);
    assert!(result.lines[0].text == "a  # ERROR: Not working");
    assert!(result.lines[1].text == "b");
    assert!(result.lines[2].text == "c");
    assert!(result.lines[3].text == "d");
}

#[test]
fn mod_unknown_node() {
    let result = parse_module_text(
        "
lolwat
	lolproperty 1337
"
        .trim(),
    )
    .unwrap();

    assert!(result.lines.len() == 2);
    assert!(result.lines[0].indent_level == 0);
    assert!(result.lines[1].indent_level == 1);
    assert!(result.lines[0].text == "lolwat  # ERROR: Unknown node");
    assert!(result.lines[1].text == "lolproperty 1337");
}

#[test]
fn sine_unknown_property() {
    let result = parse_module_text(
        "
sine
	lolproperty 1337
		"
        .trim(),
    )
    .unwrap();

    assert!(result.lines.len() == 2);
    assert!(result.lines[0].text == "sine");
    println!("{}", result.lines[1].text);
    assert!(result.lines[1].text == "lolproperty 1337  # ERROR: Unknown property");
}

#[test]
fn lines_are_renumbered() {
    let result = parse_module_text("# head\n\nsine a\n\n\tfrequency 1\nwat\n").unwrap();
    let numbers: Vec<usize> = result.lines.iter().map(|line| line.line_number).collect();
    assert_eq!(numbers, vec![1, 2, 3]);
    assert!(result.errors.is_empty());
}

#[test]
fn line_after_header_on_the_same_level_is_taken_for_a_property() {
    let result = parse_module_text("sine\nsine\n\tfrequency 2\nwat").unwrap();
    assert_eq!(
        texts(&result),
        vec!["sine", "sine  # ERROR: Unknown property", "\tfrequency 2", "wat  # ERROR: Unknown node"]
    );
}

#[test]
fn nested_lines_follow_their_faulty_line() {
    let result = parse_module_text("sine\n\tx 1\n\t\ty\n\t\t\tz\nsine\n\tfrequency 1\n\t\tdeep\n\t\t\tdeeper").unwrap();
    assert_eq!(
        texts(&result),
        vec![
            "sine",
            "\tx 1  # ERROR: Unknown property",
            "\t\ty",
            "\t\t\tz",
            "sine",
            "\tfrequency 1",
            "\t\tdeep  # ERROR: Unknown property",
            "\t\t\tdeeper",
        ]
    );
}

#[test]
fn property_behind_nested_lines_is_left_over() {
    assert_eq!(
        parse_module_text("sine\n\tx\n\t\ty\n\tfrequency 1").err(),
        Some(ParseError::Unconsumed { line_number: 4 })
    );
    assert_eq!(parse_module_text("\tsine").err(), Some(ParseError::Unconsumed { line_number: 1 }));
}

#[test]
fn empty_text_has_no_lines() {
    let result = parse_module_text("").unwrap();
    assert!(result.lines.is_empty());
}

#[test]
fn peeker_compares_with_the_line_consumed_last() {
    let mut peeker = Peeker::new(parse_module("a\n\tb\n\tc\nd"));
    let mut result = ParseResults::new();
    assert!(matches!(peeker.current(), PeekerResult::IndentSame(line) if line.text == "a"));
    peeker.consume(&mut result);
    assert!(matches!(peeker.current(), PeekerResult::IndentDown(line) if line.text == "b"));
    peeker.consume(&mut result);
    assert!(matches!(peeker.current(), PeekerResult::IndentSame(line) if line.text == "c"));
    peeker.consume(&mut result);
    assert!(matches!(peeker.current(), PeekerResult::IndentUp(line) if line.text == "d"));
    peeker.consume(&mut result);
    assert!(matches!(peeker.current(), PeekerResult::Done));
    assert_eq!(texts(&result), vec!["a", "\tb", "\tc", "d"]);
    assert_eq!(result.lines[3].line_number, 4);
}

#[test]
fn writing_lines() {
    let line = TextLine { text: "a b  c".to_string(), line_number: 9, indent_level: 2 };
    let mut result = ParseResults::new();
    write_line(&mut result, &line, "x");
    write_forward(&mut result, &line);
    write_child_line(&mut result, &line, "y");
    assert_eq!(texts(&result), vec!["\t\tx", "\t\ta b  c", "\t\t\ty"]);
    assert_eq!(result.lines[2].line_number, 3);
    assert_eq!(read_property(&line), ("a".to_string(), "b  c".to_string()));
    let bare = TextLine { text: "a".to_string(), line_number: 1, indent_level: 0 };
    assert_eq!(read_property(&bare), ("a".to_string(), "".to_string()));
}

#[test]
fn sine_node_with_id_is_read_with_its_properties() {
    let mut peeker = Peeker::new(parse_module(
        "sine id1\n\tfrequency 440\n\tfrequency\n\tfrequency x\n\t\tnested\n\tfrequency \n\tvolume 3\n\tfrequency 1e3\nout id2",
    ));
    let mut result = ParseResults::new();
    let id = parse(&mut result, &mut peeker);
    assert_eq!(id, "id1");
    assert_eq!(peeker.index, 8);
    assert_eq!(
        texts(&result),
        vec![
            "sine id1",
            "\tfrequency 440",
            "\tfrequency  # ERROR: Missing value",
            "\tfrequency x  # ERROR: Invalid float value: invalid float literal",
            "\t\tnested",
            "\tfrequency  # ERROR: Missing value",
            "\tvolume 3  # ERROR: Unknown property",
            "\tfrequency 1e3",
        ]
    );
}

#[test]
fn no_node_is_read_at_the_end_of_the_lines() {
    let mut peeker = Peeker::new(parse_module("wat\n\tx"));
    let mut result = ParseResults::new();
    parse_node(&mut result, &mut peeker);
    assert_eq!(texts(&result), vec!["wat  # ERROR: Unknown node", "\tx"]);
    assert_eq!((peeker.index, peeker.indent_level), (2, 1));
    parse_node(&mut result, &mut peeker);
    assert_eq!(result.lines.len(), 2);
    assert_eq!((peeker.index, peeker.indent_level), (2, 1));
    let mut empty = Peeker::new(Vec::new());
    parse_node(&mut result, &mut empty);
    assert_eq!(result.lines.len(), 2);
    assert_eq!(empty.index, 0);
}
