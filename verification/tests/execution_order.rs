use aim::module::execution_order::{plan_execution_order, PlanError};
use aim::module::Module;
use aim::nodes::common::{Inlet, Ports};
use aim::parse_nodes::parse_module_text;

fn position(module: &Module, id: &str) -> Option<usize> {
    module.execution_order.iter().position(|x| x == id)
}

#[test]
fn check_execution_order_of_nodes() {
    let (mut module, _) = parse_module_text(
        "
sine id1
	frequency 440
sine id2
	frequency <- id1:out
sine id3
	frequency <- id1:out
sine id4
	frequency <- id2:out
sine id5
	frequency 440
		"
        .trim(),
    )
    .unwrap();

    assert!(!module.is_ok());

    plan_execution_order(&mut module).unwrap();

    assert!(module.execution_order.len() == 5, "Nodes are missing from the execution order");

    assert!(
        vec!["id1", "id2", "id3", "id4", "id5"]
            .iter()
            .all(|x| module.execution_order.contains(&x.to_string())),
        "Nodes are missing in the execution order list"
    );

    assert!(
        module.execution_order.iter().position(|x| x == "id2")
            > module.execution_order.iter().position(|x| x == "id1")
    );

    assert!(
        module.execution_order.iter().position(|x| x == "id3")
            > module.execution_order.iter().position(|x| x == "id1")
    );

    assert!(
        module.execution_order.iter().position(|x| x == "id4")
            > module.execution_order.iter().position(|x| x == "id2")
    );
}

#[test]
fn execution_order_check_execution_order_of_nodes() {
    let (mut module, _) = parse_module_text(
        "
sine id1
	frequency 440
sine id2
	frequency <- id1 out
sine id3
	frequency <- id1 out
sine id4
	frequency 440
		"
        .trim(),
    )
    .unwrap();

    plan_execution_order(&mut module).unwrap();
}

#[test]
fn producers_come_first_whatever_the_text_order() {
    let (mut module, _) = parse_module_text(
        "out o\n\tin <- c:out\nsine c\n\tfrequency <- b:out\nsine b\n\tfrequency <- a:out\nsine a",
    )
    .unwrap();
    assert_eq!(plan_execution_order(&mut module), Ok(()));
    assert!(module.is_ok());
    assert_eq!(module.execution_order, vec!["a", "b", "c", "o"]);
    assert!(position(&module, "a") < position(&module, "b"));
    assert!(position(&module, "b") < position(&module, "c"));
    assert!(position(&module, "c") < position(&module, "o"));
}

#[test]
fn end_to_end_example_runs_generator_first() {
    let (mut module, _) = parse_module_text("sine\n\tfrequency 440\nout\n\tin <- id1:out").unwrap();
    plan_execution_order(&mut module).unwrap();
    assert_eq!(module.execution_order, vec!["id1", "id2"]);
}

#[test]
fn mutual_references_are_a_cycle() {
    let (mut module, text) =
        parse_module_text("sine a\n\tfrequency <- b:out\nsine b\n\tfrequency <- a:out\nsine c").unwrap();
    assert_eq!(text, "sine a\n\tfrequency <- b:out\nsine b\n\tfrequency <- a:out\nsine c");
    assert_eq!(plan_execution_order(&mut module), Err(PlanError::Cycle));
    assert!(module.execution_order.is_empty());
    assert!(!module.is_ok());
}

#[test]
fn self_reference_is_a_cycle() {
    let (mut module, _) = parse_module_text("sine a\n\tfrequency <- a:out").unwrap();
    assert_eq!(plan_execution_order(&mut module), Err(PlanError::Cycle));
}

#[test]
fn longer_cycle_is_found_behind_placed_nodes() {
    let (mut module, _) = parse_module_text(
        "sine g\nsine a\n\tfrequency <- c:out\nsine b\n\tfrequency <- a:out\nsine c\n\tfrequency <- b:out\nout o\n\tin <- g:out",
    )
    .unwrap();
    assert_eq!(plan_execution_order(&mut module), Err(PlanError::Cycle));
}

#[test]
fn dangling_references_make_no_dependency() {
    let mut module = Module::new();
    module.nodes.insert("a".to_string(), None);
    let mut ports = Ports::new();
    ports.connect("in", Inlet { node_id: "nowhere".to_string(), outlet: "out".to_string() });
    ports.inlet("other");
    module.ports.insert("a".to_string(), ports);
    module.nodes.insert("b".to_string(), None);
    let mut ports = Ports::new();
    ports.connect("in", Inlet { node_id: "a".to_string(), outlet: "missing".to_string() });
    module.ports.insert("b".to_string(), ports);
    assert_eq!(plan_execution_order(&mut module), Ok(()));
    assert_eq!(module.execution_order, vec!["a", "b"]);
}

#[test]
fn empty_module_has_empty_order() {
    let mut module = Module::new();
    assert_eq!(plan_execution_order(&mut module), Ok(()));
    assert!(module.execution_order.is_empty());
    assert!(module.is_ok());
}

#[test]
fn planning_again_replaces_the_order() {
    let (mut module, _) = parse_module_text("sine a\nsine b").unwrap();
    plan_execution_order(&mut module).unwrap();
    plan_execution_order(&mut module).unwrap();
    assert_eq!(module.execution_order, vec!["a", "b"]);
}
