use aim::module::execution_order::{plan_execution_order, PlanError};
use aim::module::process::process_frame;
use aim::nodes::common::{FrameStep, Outlet, OutletKind, ProcessNode, ProcessNodeEnvironment};
use aim::nodes::Node;
use aim::parse::ParseError;
use aim::parse_nodes::parse_module_text;
use aim::project::{next_frame, run_frames, run_single_module, RunError};

#[test]
fn module_create_node_and_process() {
    let env = ProcessNodeEnvironment { sample_rate: 44100, buffer_size: 8 };
    let (parse_results, text) = run_single_module(
        "
sine
	frequency 100
		",
        &env,
        1,
    )
    .unwrap();

    assert!(
        text == "
sine id1
	frequency 100
		"
        .trim()
    );

    assert!(parse_results.nodes.len() == 1);
    assert!(parse_results.nodes.contains_key("id1"));
}

#[test]
fn sine_create_node_and_process() {
    let env = ProcessNodeEnvironment { sample_rate: 44100, buffer_size: 8 };
    let (parse_results, text) = run_single_module(
        "
sine
	frequency 100
		",
        &env,
        1, // Process only single frame
    )
    .unwrap();

    assert!(
        text == "
sine id1
	frequency 100
		"
        .trim()
    );

    assert!(parse_results.nodes.len() == 1);
    assert!(parse_results.nodes.contains_key("id1"));
}

#[test]
fn end_to_end_example_processes_a_frame() {
    let env = ProcessNodeEnvironment { sample_rate: 44100, buffer_size: 8 };
    let (mut module, _) = parse_module_text("sine\n\tfrequency 440\nout\n\tin <- id1:out").unwrap();
    plan_execution_order(&mut module).unwrap();
    assert!(module.ports.values[0].outlets.values[0].voices.is_empty());

    let steps = process_frame(&env, &mut module);

    assert_eq!(steps.len(), 2);
    match &steps[0] {
        FrameStep::Generate { node_id, outlet, frequency } => {
            assert_eq!(node_id, "id1");
            assert_eq!(outlet, "out");
            assert_eq!(frequency, "440");
        }
        _ => panic!(),
    }
    match &steps[1] {
        FrameStep::Mix { node_id, source } => {
            assert_eq!(node_id, "id2");
            assert_eq!(source.node_id, "id1");
            assert_eq!(source.outlet, "out");
        }
        _ => panic!(),
    }
    assert_eq!(module.ports.values[0].outlets.values[0].voices, vec![8]);
    assert!(module.ports.values[0].outlets.values[0].kind == OutletKind::Signal);

    let steps = process_frame(&env, &mut module);
    assert_eq!(steps.len(), 2);
    assert_eq!(module.ports.values[0].outlets.values[0].voices, vec![8]);
}

#[test]
fn voices_keep_their_size_when_the_frame_size_changes() {
    let (mut module, _) = parse_module_text("sine a").unwrap();
    plan_execution_order(&mut module).unwrap();
    process_frame(&ProcessNodeEnvironment { sample_rate: 44100, buffer_size: 8 }, &mut module);
    process_frame(&ProcessNodeEnvironment { sample_rate: 44100, buffer_size: 16 }, &mut module);
    assert_eq!(module.ports.values[0].outlets.values[0].voices, vec![8]);
}

#[test]
fn nodes_that_could_not_be_read_are_skipped() {
    let env = ProcessNodeEnvironment { sample_rate: 44100, buffer_size: 4 };
    let (mut module, _) = parse_module_text("wat a\nout b\nsine c").unwrap();
    plan_execution_order(&mut module).unwrap();
    let steps = process_frame(&env, &mut module);
    assert_eq!(steps.len(), 2);
    assert!(matches!(&steps[0], FrameStep::Idle { node_id } if node_id == "b"));
    assert!(matches!(&steps[1], FrameStep::Generate { node_id, .. } if node_id == "c"));
}

#[test]
fn modulated_generator_is_not_supported() {
    let env = ProcessNodeEnvironment { sample_rate: 44100, buffer_size: 4 };
    let (mut module, _) = parse_module_text("sine a\nsine b\n\tfrequency <- a:out").unwrap();
    plan_execution_order(&mut module).unwrap();
    let steps = process_frame(&env, &mut module);
    assert!(matches!(&steps[0], FrameStep::Generate { node_id, .. } if node_id == "a"));
    assert!(matches!(&steps[1], FrameStep::Unsupported { node_id } if node_id == "b"));
    assert!(module.ports.values[1].outlets.values[0].voices.is_empty());
}

#[test]
fn sink_tells_outlet_kinds_apart() {
    let env = ProcessNodeEnvironment { sample_rate: 44100, buffer_size: 4 };
    let (mut module, _) = parse_module_text("sine a\nout b\n\tin <- a:out").unwrap();
    plan_execution_order(&mut module).unwrap();

    module.ports.values[0].outlets.values[0] = Outlet::audio();
    let steps = process_frame(&env, &mut module);
    assert!(matches!(&steps[0], FrameStep::Idle { node_id } if node_id == "a"));
    assert!(matches!(&steps[1], FrameStep::Unsupported { node_id } if node_id == "b"));

    module.ports.values[0].outlets.values[0] = Outlet::midi();
    let steps = process_frame(&env, &mut module);
    assert!(matches!(&steps[1], FrameStep::Idle { node_id } if node_id == "b"));

    module.ports.values[0].outlets.values[0] = Outlet::signal();
    let steps = process_frame(&env, &mut module);
    assert!(matches!(&steps[1], FrameStep::Mix { node_id, .. } if node_id == "b"));

    module.ports.values[0].outlets.names[0] = "renamed".to_string();
    let steps = process_frame(&env, &mut module);
    assert!(matches!(&steps[1], FrameStep::Idle { node_id } if node_id == "b"));
}

#[test]
fn nodes_hold_the_voices_they_make() {
    let (module, _) = parse_module_text("sine a\nout b").unwrap();
    match &module.nodes.values[0] {
        Some(node) => {
            assert!(node.holds_voice(0));
            assert!(!node.holds_voice(1));
        }
        None => panic!(),
    }
    match &module.nodes.values[1] {
        Some(node) => assert!(!node.holds_voice(0)),
        None => panic!(),
    }
    assert!(matches!(module.nodes.values[0], Some(Node::Sine(_))));
}

#[test]
fn running_reports_why_it_failed() {
    let env = ProcessNodeEnvironment { sample_rate: 44100, buffer_size: 8 };
    assert_eq!(run_single_module(" ", &env, 1).err(), Some(RunError::Parse(ParseError::Empty)));
    assert_eq!(
        run_single_module("sine a\n\tfrequency <- a:out", &env, 1).err(),
        Some(RunError::Plan(PlanError::Cycle))
    );
}

#[test]
fn running_several_frames_leaves_one_voice() {
    let env = ProcessNodeEnvironment { sample_rate: 44100, buffer_size: 8 };
    let (module, text) = run_single_module("sine\nout\n\tin <- id1:out", &env, 3).unwrap();
    assert_eq!(text, "sine id1\nout id2\n\tin <- id1:out");
    assert_eq!(module.execution_order, vec!["id1", "id2"]);
    assert_eq!(module.ports.values[0].outlets.values[0].voices, vec![8]);
    assert!(module.is_ok());
}

#[test]
fn nodes_declare_their_ports() {
    let env = ProcessNodeEnvironment { sample_rate: 44100, buffer_size: 8 };
    let (module, _) = parse_module_text("sine a\nout b").unwrap();
    let sine = module.nodes.values[0].as_ref().unwrap().on_init(&env);
    assert_eq!(sine.outlets.names, vec!["out"]);
    assert!(sine.outlets.values[0].kind == OutletKind::Signal);
    assert!(sine.outlets.values[0].voices.is_empty());
    assert!(sine.inlets.names.is_empty());
    let out = module.nodes.values[1].as_ref().unwrap().on_init(&env);
    assert!(out.outlets.names.is_empty());
    assert!(out.inlets.names.is_empty());
}

#[test]
fn frames_are_counted_off() {
    assert_eq!(next_frame(3), (true, 2));
    assert_eq!(next_frame(2), (true, 1));
    assert_eq!(next_frame(1), (false, 0));
    assert_eq!(next_frame(0), (true, 0));
    assert_eq!(next_frame(-1), (true, -1));
    assert_eq!(next_frame(i32::MIN), (true, i32::MIN));
    assert_eq!(next_frame(i32::MAX), (true, i32::MAX - 1));
}

#[test]
fn every_frame_of_a_run_has_its_steps() {
    let env = ProcessNodeEnvironment { sample_rate: 44100, buffer_size: 8 };
    let (mut module, _) = parse_module_text("sine\nwat\nout\n\tin <- id1:out").unwrap();
    plan_execution_order(&mut module).unwrap();
    let frames = run_frames(&env, &mut module, 3);
    assert_eq!(frames.len(), 3);
    for steps in &frames {
        assert_eq!(steps.len(), 2);
        assert!(matches!(&steps[0], FrameStep::Generate { node_id, .. } if node_id == "id1"));
        assert!(matches!(&steps[1], FrameStep::Mix { node_id, .. } if node_id == "id3"));
    }
    assert_eq!(module.ports.values[0].outlets.values[0].voices, vec![8]);
    assert_eq!(run_frames(&env, &mut module, 1).len(), 1);
}

#[test]
fn new_session_has_no_active_voice() {
    assert_eq!(aim::module::process::session::Session::new(3).active_voices, vec![false, false, false]);
    assert!(aim::module::process::session::Session::new(0).active_voices.is_empty());
}
