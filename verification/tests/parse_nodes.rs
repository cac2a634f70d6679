use aim::module::Module;
use aim::parse::{IndentBlock, ParseError};
use aim::parse_nodes::ids::{get_all_node_ids, get_highest_id, initialize_nodes};
use aim::parse_nodes::parameter::{parse_node_parameter, PortParameter};
use aim::parse_nodes::{declare_nodes, parse_module_text, parse_node, parse_node_header};
use aim::nodes::Node;

#[test]
fn getting_highest_id_value() {
    let highest = get_highest_id(vec!["id12".to_string(), "id5".to_string(), "id1".to_string()]);
    assert_eq!(highest, 12);
}

#[test]
fn getting_node_ids() {
    let ids = get_all_node_ids(
        "
a id1
	b id2
c
d id3
		"
        .trim(),
    );

    assert_eq!(ids, vec!["id1".to_string(), "id3".to_string()])
}

#[test]
fn initializing_nodes() {
    let result = initialize_nodes(
        "
a
	b
c id5
	d id1337
e id9
		"
        .trim(),
    );

    assert_eq!(
        result,
        "
a id10
	b
c id5
	d id1337
e id9
		"
        .trim()
    );
}

#[test]
fn parse_nodes_parsing_text() {
    let (result, text) = parse_module_text(
        "
sine id0
	frequency 440
doesnotexist id1
	amplitude 1
		"
        .trim(),
    )
    .unwrap();

    assert_eq!(result.nodes.len(), 2);
    assert_eq!(
        text,
        "
sine id0
	frequency 440
doesnotexist id1  # ERROR: Unknown node
	amplitude 1
		"
        .trim()
    );
}

#[test]
fn parse_nodes_unknown_node() {
    let (result, text) = parse_module_text(
        "
lolwat id0
	lolparameter 1337
"
        .trim(),
    )
    .unwrap();

    assert_eq!(result.nodes.len(), 1);
    assert_eq!(
        text,
        "
lolwat id0  # ERROR: Unknown node
	lolparameter 1337
		"
        .trim()
    );
}

#[test]
fn sine_unknown_parameter() {
    let (result, text) = parse_module_text(
        "
sine id0
	lolparameter 1337
		"
        .trim(),
    )
    .unwrap();

    assert_eq!(result.nodes.len(), 1);
    assert_eq!(
        text,
        "
sine id0
	lolparameter 1337  # ERROR: Unknown parameter
		"
        .trim()
    );
}

#[test]
fn parsing_input_parameter() {
    let result = parse_node_parameter("frequency 440 test 123");

    match result {
        Ok(PortParameter::Constant { name, value }) => {
            assert_eq!(name, "frequency");
            assert_eq!("440 test 123", value);
        }
        Err(message) => {
            panic!("{}", message);
        }
        _ => {
            panic!();
        }
    }

    let result = parse_node_parameter("frequency <- id1:out");
    match result {
        Ok(PortParameter::Inlet { name, node_id, outlet }) => {
            assert_eq!(name, "frequency");
            assert_eq!(node_id, "id1");
            assert_eq!(outlet, "out");
        }
        Err(message) => {
            panic!("{}", message);
        }
        _ => {
            panic!();
        }
    }

    let result = parse_node_parameter("frequency -> id1 in");
    match result {
        Ok(PortParameter::Outlet { name, node_id, inlet }) => {
            assert_eq!(name, "frequency");
            assert_eq!(node_id, "id1");
            assert_eq!(inlet, "in");
        }
        Err(message) => {
            panic!("{}", message);
        }
        _ => {
            panic!();
        }
    }
}

#[test]
fn parameter_errors_name_what_is_missing() {
    assert_eq!(
        parse_node_parameter("frequency").err().unwrap(),
        "  # ERROR: Parameter is missing value"
    );
    assert_eq!(
        parse_node_parameter("").err().unwrap(),
        "  # ERROR: Parameter is missing value"
    );
    assert_eq!(
        parse_node_parameter("in <-").err().unwrap(),
        "  # ERROR: Missing id of the connecting node"
    );
    assert_eq!(
        parse_node_parameter("in <- id1").err().unwrap(),
        "  # ERROR: Invalid node:port reference"
    );
    assert_eq!(
        parse_node_parameter("out ->").err().unwrap(),
        "  # ERROR: Missing id of the connecting node"
    );
    assert_eq!(
        parse_node_parameter("out -> id1").err().unwrap(),
        "  # ERROR: Missing name of port of the connecting node"
    );
}

#[test]
fn constant_value_is_all_that_follows_the_key() {
    match parse_node_parameter("frequency 440 a 123") {
        Ok(PortParameter::Constant { name, value }) => {
            assert_eq!(name, "frequency");
            assert_eq!(value, "440 a 123");
        }
        _ => panic!(),
    }
    match parse_node_parameter("  gain   1 2 33 x é  yes ") {
        Ok(PortParameter::Constant { name, value }) => {
            assert_eq!(name, "gain");
            assert_eq!(value, "1 2 33 x é  yes");
        }
        _ => panic!(),
    }
}

#[test]
fn inlet_reference_splits_at_the_first_colon() {
    match parse_node_parameter("in <- a:b:c extra") {
        Ok(PortParameter::Inlet { name, node_id, outlet }) => {
            assert_eq!(name, "in");
            assert_eq!(node_id, "a");
            assert_eq!(outlet, "b:c");
        }
        _ => panic!(),
    }
}

#[test]
fn header_splits_at_the_first_space() {
    assert_eq!(parse_node_header("sine id1"), ("sine".to_string(), Some("id1".to_string())));
    assert_eq!(parse_node_header("sine   my id "), ("sine".to_string(), Some("my id".to_string())));
    assert_eq!(parse_node_header("sine"), ("sine".to_string(), None));
}

#[test]
fn highest_id_ignores_other_ids() {
    assert_eq!(get_highest_id(vec![]), 0);
    assert_eq!(get_highest_id(vec!["custom".to_string(), "idx".to_string(), "id".to_string()]), 0);
    assert_eq!(get_highest_id(vec!["id 7 ".to_string(), "id+9".to_string(), "id-11".to_string()]), 0);
    assert_eq!(get_highest_id(vec!["void3".to_string(), "id0004".to_string(), "id3x".to_string()]), 4);
    assert_eq!(get_highest_id(vec!["id4294967295".to_string(), "id4294967296".to_string()]), 4294967295);
}

#[test]
fn node_ids_are_read_in_front_of_comments() {
    assert_eq!(get_all_node_ids("a id1\r\nb  id2 \r\n\r\nc id3\r"), vec!["id1", "id2", "id3"]);
    assert_eq!(
        get_all_node_ids("# id40\nsine #id7\nout x # id9\n\tin id5\n mix  my id  # c"),
        vec!["x", "my"]
    );
    assert_eq!(get_all_node_ids("a id1 x"), vec!["id1"]);
}

#[test]
fn allocation_counts_up_from_the_highest_number() {
    assert_eq!(initialize_nodes("sine\nout\n\tin <- id1:out"), "sine id1\nout id2\n\tin <- id1:out");
    assert_eq!(initialize_nodes("\n\n a\n\nb \n\n"), " a id1\nb id2");
    assert_eq!(initialize_nodes("a id1 x\nb"), "a id1 x\nb id2");
    assert_eq!(initialize_nodes("a x id7 y\nb"), "a x id7 y\nb id1");
    assert_eq!(initialize_nodes("a id 7 \nb"), "a id 7 \nb id1");
    assert_eq!(initialize_nodes("a id007\nb\nc void9"), "a id007\nb id8\nc void9");
    assert_eq!(initialize_nodes("a id9\nb\nc id19\nd\ne"), "a id9\nb id20\nc id19\nd id21\ne id22");
}

#[test]
fn allocation_counts_beyond_any_width() {
    assert_eq!(initialize_nodes("a id4294967295\nb\nc"), "a id4294967295\nb id4294967296\nc id4294967297");
    assert_eq!(
        initialize_nodes("a id4294967295\nc id4294967296\nb"),
        "a id4294967295\nc id4294967296\nb id4294967297"
    );
    assert_eq!(
        initialize_nodes("a id99999999999999999999999999999999999999999\nb\nc id0000000000000000000000000000000000000000000000001"),
        "a id99999999999999999999999999999999999999999\nb id100000000000000000000000000000000000000000\nc id0000000000000000000000000000000000000000000000001"
    );
    assert_eq!(
        initialize_nodes("a id340282366920938463463374607431768211455\nb"),
        "a id340282366920938463463374607431768211455\nb id340282366920938463463374607431768211456"
    );
}

#[test]
fn allocation_decides_in_front_of_the_comment() {
    assert_eq!(
        initialize_nodes("# title id9\n#title\nsine # first\nout \t#sink\nmix m# id30\n\t# note\nlast#"),
        "# title id9\n#title\nsine id1 # first\nout id2 \t#sink\nmix m# id30\n\t# note\nlast id3#"
    );
}

#[test]
fn allocation_is_idempotent_on_its_own_output() {
    let once = initialize_nodes("sine\n\tfrequency 440\n\nout\n\tin <- id1:out\nmix idx\nlast");
    assert_eq!(once, "sine id1\n\tfrequency 440\nout id2\n\tin <- id1:out\nmix idx\nlast id3");
    assert_eq!(initialize_nodes(&once), once);
}

#[test]
fn end_to_end_example_is_wired() {
    let (module, text) = parse_module_text("sine\n\tfrequency 440\nout\n\tin <- id1:out").unwrap();
    assert_eq!(text, "sine id1\n\tfrequency 440\nout id2\n\tin <- id1:out");
    assert!(module.errors.is_empty());
    assert_eq!(module.nodes.names, vec!["id1", "id2"]);
    match &module.nodes.values[0] {
        Some(Node::Sine(sine)) => assert_eq!(sine.frequency, "440"),
        _ => panic!(),
    }
    assert!(matches!(module.nodes.values[1], Some(Node::Out(_))));
    let inlets = &module.ports.values[1].inlets;
    assert_eq!(inlets.names, vec!["in"]);
    let source = inlets.values[0].as_ref().unwrap();
    assert_eq!(source.node_id, "id1");
    assert_eq!(source.outlet, "out");
    assert_eq!(module.ports.values[0].outlets.names, vec!["out"]);
    assert!(module.ports.values[0].inlets.names.is_empty());
}

#[test]
fn sine_uses_default_frequency_when_parameter_is_unknown() {
    let (module, text) = parse_module_text("sine id1\n\tvolume 1").unwrap();
    assert_eq!(text, "sine id1\n\tvolume 1  # ERROR: Unknown parameter");
    assert_eq!(module.errors, vec!["volume 1  # ERROR: Unknown parameter"]);
    match &module.nodes.values[0] {
        Some(Node::Sine(sine)) => assert_eq!(sine.frequency, "440"),
        _ => panic!(),
    }
}

#[test]
fn unknown_node_is_isolated() {
    let (module, text) =
        parse_module_text("sine a\n\tfrequency 2e3\nwat b\n\tin <- a:out\n\t\tdeep\nout c\n\tin <- a:out").unwrap();
    assert_eq!(
        text,
        "sine a\n\tfrequency 2e3\nwat b  # ERROR: Unknown node\n\tin <- a:out\n\t\tdeep\nout c\n\tin <- a:out"
    );
    assert_eq!(module.errors, vec!["wat b  # ERROR: Unknown node"]);
    assert_eq!(module.nodes.len(), 3);
    assert!(module.nodes.contains_key("b"));
    assert!(module.nodes.values[1].is_none());
    assert!(module.ports.values[1].inlets.names.is_empty());
    assert!(matches!(module.nodes.values[2], Some(Node::Out(_))));
    assert_eq!(module.ports.values[2].inlets.values[0].as_ref().unwrap().node_id, "a");
}

#[test]
fn sine_parameters_are_checked() {
    let (module, text) = parse_module_text(
        "sine a\n\tfrequency\n\tfrequency x\n\tfrequency 1 2\n\tfrequency -> a in\n\tfrequency <- a\n\tfrequency <- b:out\n\tfrequency <- a:in\n\tother <- a:out\n\tother -> a in\n\tother\n\tfrequency -.5E-3\n\tfrequency z z",
    )
    .unwrap();
    assert_eq!(
        text,
        "sine a\n\tfrequency  # ERROR: Parameter is missing value\n\tfrequency x  # ERROR: Invalid float value: invalid float literal\n\tfrequency 1 2  # ERROR: Invalid float value: invalid float literal\n\tfrequency -> a in  # ERROR: Invalid parameter\n\tfrequency <- a  # ERROR: Invalid node:port reference\n\tfrequency <- b:out  # ERROR: Unknown node or outlet\n\tfrequency <- a:in  # ERROR: Unknown node or outlet\n\tother <- a:out  # ERROR: Unknown parameter\n\tother -> a in  # ERROR: Unknown parameter\n\tother  # ERROR: Unknown parameter\n\tfrequency -.5E-3\n\tfrequency z z  # ERROR: Invalid float value: invalid float literal"
    );
    assert_eq!(module.errors.len(), 11);
    match &module.nodes.values[0] {
        Some(Node::Sine(sine)) => assert_eq!(sine.frequency, "-.5E-3"),
        _ => panic!(),
    }
    assert!(module.ports.values[0].inlets.names.is_empty());
}

#[test]
fn float_literals_follow_the_grammar() {
    for good in ["1", "1.", ".5", "1.5", "+1e5", "-1E-5", "1.e+5", "inf", "-Infinity", "NaN", "+nan", "007"] {
        let (module, _) = parse_module_text(&format!("sine a\n\tfrequency {}", good)).unwrap();
        assert!(module.errors.is_empty(), "{}", good);
    }
    for bad in [".", "e5", "1e", "1e+", "+", "-", "1.5.2", "1f", "in", "infinit", "0x10", "1_0", "--1", "1e5.0"] {
        let (module, _) = parse_module_text(&format!("sine a\n\tfrequency {}", bad)).unwrap();
        assert_eq!(module.errors.len(), 1, "{}", bad);
    }
}

#[test]
fn frequency_takes_all_that_follows_it() {
    let (_, text) = parse_module_text("sine a\n\tfrequency  x").unwrap();
    assert_eq!(text, "sine a\n\tfrequency  x  # ERROR: Invalid float value: invalid float literal");
    let (module, _) = parse_module_text("sine a\n\tfrequency   12.5  ").unwrap();
    assert!(module.errors.is_empty());
    match &module.nodes.values[0] {
        Some(Node::Sine(sine)) => assert_eq!(sine.frequency, "12.5"),
        _ => panic!(),
    }
}

#[test]
fn out_parameters_are_checked() {
    let (module, text) = parse_module_text(
        "sine a\nout b\n\tin 5\n\tin -> a in\n\tother <- a:out\n\tamplitude 1\n\tin <- a:out\n\tin <- c:out\n\tin <-\n\tin",
    )
    .unwrap();
    assert_eq!(
        text,
        "sine a\nout b\n\tin 5  # ERROR: Invalid parameter\n\tin -> a in  # ERROR: Invalid parameter\n\tother <- a:out  # ERROR: Unknown parameter\n\tamplitude 1  # ERROR: Unknown parameter\n\tin <- a:out\n\tin <- c:out  # ERROR: Unknown node or outlet\n\tin <-  # ERROR: Missing id of the connecting node\n\tin  # ERROR: Parameter is missing value"
    );
    assert_eq!(module.errors.len(), 7);
    assert_eq!(module.ports.values[1].inlets.values[0].as_ref().unwrap().node_id, "a");
}

#[test]
fn sink_does_not_know_amplitude() {
    let mut root = IndentBlock::parse_text("sine id1\nout id2\n\tamplitude 1").unwrap();
    let mut module = Module::new();
    declare_nodes(&mut module, &root.children).unwrap();
    aim::nodes::out::new(&mut root.children[1], &mut module, 1);
    assert_eq!(root.children[1].children[0].text, "amplitude 1  # ERROR: Unknown parameter");
    assert_eq!(root.children[1].text, "out id2");
    assert_eq!(module.errors, vec!["amplitude 1  # ERROR: Unknown parameter"]);
}

#[test]
fn later_nodes_can_be_referenced() {
    let (module, text) = parse_module_text("out\n\tin <- id2:out\nsine").unwrap();
    assert_eq!(text, "out id1\n\tin <- id2:out\nsine id2");
    assert!(module.errors.is_empty());
}

#[test]
fn fatal_errors_are_reported() {
    assert_eq!(parse_module_text("").err(), Some(ParseError::Empty));
    assert_eq!(parse_module_text("# nothing").err(), Some(ParseError::Empty));
    assert_eq!(
        parse_module_text("sine\n\t\tfrequency 1").err(),
        Some(ParseError::Indentation { line_number: 2 })
    );
    assert_eq!(
        parse_module_text("\tsine\nout").err(),
        Some(ParseError::Indentation { line_number: 1 })
    );
    assert_eq!(
        parse_module_text("sine a\nout b\nsine a").err(),
        Some(ParseError::DuplicateId { line_number: 3 })
    );
}

#[test]
fn header_with_a_comment_gets_an_id() {
    let (module, text) = parse_module_text("sine a\nout # sink\n\tin <- a:out\nwat#").unwrap();
    assert_eq!(text, "sine a\nout id1\n\tin <- a:out\nwat id2  # ERROR: Unknown node");
    assert_eq!(module.nodes.names, vec!["a", "id1", "id2"]);
    assert!(matches!(module.nodes.values[1], Some(Node::Out(_))));
    assert!(module.nodes.values[2].is_none());
}

#[test]
fn declaring_stops_at_a_header_without_an_id() {
    let root = IndentBlock::parse_text("sine a\nout").unwrap();
    let mut module = Module::new();
    assert_eq!(
        declare_nodes(&mut module, &root.children),
        Err(ParseError::MissingId { line_number: 2 })
    );
    assert_eq!(module.nodes.names, vec!["a"]);
}

#[test]
fn node_is_entered_and_read() {
    let mut root = IndentBlock::parse_text("lolwat x\n\tchild 1\nsine s\n\tfrequency 3\nout o\n\tin <- s:out\n\tin <- x:out").unwrap();
    let mut module = Module::new();
    parse_node(&mut module, &mut root.children[0]);
    assert_eq!(root.children[0].text, "lolwat x  # ERROR: Unknown node");
    assert_eq!(root.children[0].children[0].text, "child 1");
    assert_eq!(module.nodes.names, vec!["x"]);
    assert!(module.nodes.values[0].is_none());
    assert!(module.ports.values[0].inlets.names.is_empty());
    assert!(module.ports.values[0].outlets.names.is_empty());
    parse_node(&mut module, &mut root.children[1]);
    parse_node(&mut module, &mut root.children[2]);
    assert_eq!(module.nodes.names, vec!["x", "s", "o"]);
    assert_eq!(module.ports.names, vec!["x", "s", "o"]);
    assert!(module.nodes.values[0].is_none());
    assert!(matches!(module.nodes.values[1], Some(Node::Sine(_))));
    assert_eq!(module.ports.values[2].inlets.values[0].as_ref().unwrap().node_id, "s");
    assert_eq!(root.children[2].children[1].text, "in <- x:out  # ERROR: Unknown node or outlet");
    assert_eq!(
        module.errors,
        vec!["lolwat x  # ERROR: Unknown node", "in <- x:out  # ERROR: Unknown node or outlet"]
    );
}

#[test]
fn annotated_text_is_reproducible() {
    let raw = "sine\n\tvolume 1\nwat\nout\n\tin <- id9:out";
    let (_, first) = parse_module_text(raw).unwrap();
    let (_, second) = parse_module_text(raw).unwrap();
    assert_eq!(first, second);
    let (_, again) = parse_module_text(&first).unwrap();
    assert_eq!(again, first);
}

#[test]
fn allocation_is_idempotent_where_lines_start_or_end_with_white_space() {
    for text in [" a", "\ta\nb", "a \n b\t\n", "a\r\nb\r\n", "  # c\n a # d  \n\n", "", " \n\t"] {
        let once = initialize_nodes(text);
        assert_eq!(initialize_nodes(&once), once, "{:?}", text);
    }
    assert_eq!(initialize_nodes(" a"), " a id1");
    assert_eq!(initialize_nodes("\ta\nb"), "\ta\nb id1");
    assert_eq!(initialize_nodes("a\r\nb\r\n"), "a id1\r\nb id2");
}

#[test]
fn generator_declares_its_outlet() {
    let mut root = IndentBlock::parse_text("sine id1\n\tvolume 1").unwrap();
    let mut module = Module::new();
    module.nodes.insert("id1".to_string(), None);
    module.ports.insert("id1".to_string(), aim::nodes::common::Ports::new());
    let node = aim::nodes::sine::new(&mut root.children[0], &mut module, 0);
    assert_eq!(root.children[0].children[0].text, "volume 1  # ERROR: Unknown parameter");
    assert_eq!(root.children[0].text, "sine id1");
    assert_eq!(node.frequency, "440");
    let ports = &module.ports.values[0];
    assert_eq!(ports.outlets.names, vec!["out"]);
    assert!(ports.outlets.values[0].kind == aim::nodes::common::OutletKind::Signal);
    assert!(ports.outlets.values[0].voices.is_empty());
    assert!(ports.inlets.names.is_empty());

    module.ports.values[0].outlets.values[0].voices.push(8);
    aim::nodes::sine::new(&mut root.children[0], &mut module, 0);
    assert_eq!(module.ports.values[0].outlets.names, vec!["out"]);
    assert!(module.ports.values[0].outlets.values[0].voices.is_empty());
}

#[test]
fn texts_have_no_commands() {
    assert!(aim::parse_nodes::parse_commands("<play> sine id1").is_empty());
    assert!(aim::parse_nodes::parse_commands("").is_empty());
}

#[test]
fn unknown_node_between_others_changes_nothing_else() {
    let front = "sine a\n\tfrequency 1\n\tvolume 2";
    let node = "wat w\n\tchild 1\n\t\tdeeper <- a:out";
    let back = "out o\n\tin <- a:out\n\tin <- w:out";
    let (without, text) = parse_module_text(&format!("{}\n{}", front, back)).unwrap();
    let (with, text_with) = parse_module_text(&format!("{}\n{}\n{}", front, node, back)).unwrap();
    assert_eq!(
        text,
        "sine a\n\tfrequency 1\n\tvolume 2  # ERROR: Unknown parameter\nout o\n\tin <- a:out\n\tin <- w:out  # ERROR: Unknown node or outlet"
    );
    assert_eq!(
        text_with,
        "sine a\n\tfrequency 1\n\tvolume 2  # ERROR: Unknown parameter\nwat w  # ERROR: Unknown node\n\tchild 1\n\t\tdeeper <- a:out\nout o\n\tin <- a:out\n\tin <- w:out  # ERROR: Unknown node or outlet"
    );
    assert_eq!(without.errors.len() + 1, with.errors.len());
    assert_eq!(with.errors[1], "wat w  # ERROR: Unknown node");
    assert_eq!(without.nodes.names, vec!["a", "o"]);
    assert_eq!(with.nodes.names, vec!["a", "w", "o"]);
    assert!(with.nodes.values[1].is_none());
    assert!(matches!(with.nodes.values[0], Some(Node::Sine(_))));
    assert!(matches!(with.nodes.values[2], Some(Node::Out(_))));
    assert_eq!(with.ports.values[2].inlets.names, without.ports.values[1].inlets.names);
    assert_eq!(with.ports.values[2].inlets.values[0].as_ref().unwrap().node_id, "a");
    assert_eq!(with.ports.values[0].outlets.names, without.ports.values[0].outlets.names);
}
