//! Reads a module and processes it.

use vstd::prelude::*;
use crate::module::execution_order::{
    has_cycle, is_execution_order, plan_execution_order, PlanError,
};
use crate::module::process::{
    frame_steps, lemma_frames_compose, lemma_same_places, ports_framed, process_frame, ready,
    steps_view,
};
use crate::module::Module;
use crate::nodes::common::{
    ports_same_shape, same_shape, FrameStep, Ports, ProcessNodeEnvironment,
};
use crate::nodes::lemma_step_by_shape;
use crate::parse::ParseError;
use crate::parse_nodes::{describes, parse_module_text, rejects};
use crate::table::{lemma_position_of, Table};

verus! {

/// Why a module could not be run.
#[derive(Debug, PartialEq, Eq)]
pub enum RunError {
    /// The text could not be read.
    Parse(ParseError),
    /// No execution order could be planned.
    Plan(PlanError),
}

/// `module` is what has become of `parsed` after planning and one or more
/// frames: it has an execution order, and its outlets have got the voices
/// that the frames call for.
pub open spec fn ran(parsed: Module, module: Module, env: ProcessNodeEnvironment) -> bool {
    &&& module.nodes == parsed.nodes
    &&& module.errors == parsed.errors
    &&& is_execution_order(parsed.ports, module.execution_order@)
    &&& ports_framed(parsed.nodes, parsed.ports, module.ports, env, module.execution_order@)
}

/// Counts a frame off after it has been processed. Tells whether another
/// frame is to follow, and how many are left then. A count below 1 stands
/// for frames without end: it stays as it is, and another frame follows.
pub fn next_frame(frames_to_process: i32) -> (r: (bool, i32))
    ensures
        frames_to_process > 0 ==> r.1 == frames_to_process - 1 && r.0 == (r.1 > 0),
        frames_to_process <= 0 ==> r.0 && r.1 == frames_to_process,
{
    if frames_to_process > 0 {
        (frames_to_process - 1 > 0, frames_to_process - 1)
    } else {
        (true, frames_to_process)
    }
}

/// The steps of a frame depend on the shape of the port table alone, so that
/// every frame of a run has the steps of the first.
pub proof fn lemma_frame_steps_by_shape(module: Module, other: Table<Ports>, order: Seq<String>)
    requires
        module.wf(),
        same_shape(module.ports, other),
        forall|i: int| 0 <= i < order.len() ==> module.nodes.has((#[trigger] order[i])@),
    ensures
        frame_steps(module.nodes, module.ports, order) == frame_steps(module.nodes, other, order),
    decreases order.len(),
{
    if order.len() > 0 {
        let front = order.drop_last();
        assert forall|i: int| 0 <= i < front.len() implies module.nodes.has(
            (#[trigger] front[i])@,
        ) by {
            assert(front[i] == order[i]);
        }
        lemma_frame_steps_by_shape(module, other, front);
        let id = order.last()@;
        assert(module.nodes.has(order[order.len() - 1]@));
        lemma_same_places(module, id);
        match module.nodes.values@[module.nodes.position(id)] {
            Some(node) => {
                lemma_step_by_shape(node, id, module.ports, other);
            },
            None => {},
        }
    }
}

/// Processes the given number of frames. Returns the steps of each frame,
/// one list for every frame, in the order of the frames.
pub fn run_frames(env: &ProcessNodeEnvironment, module: &mut Module, frames_to_process: i32) -> (frames:
    Vec<Vec<FrameStep>>)
    requires
        ready(*old(module)),
        frames_to_process > 0,
    ensures
        frames@.len() == frames_to_process,
        forall|k: int|
            0 <= k < frames@.len() ==> steps_view((#[trigger] frames@[k])@) == frame_steps(
                old(module).nodes,
                old(module).ports,
                old(module).execution_order@,
            ),
        ready(*final(module)),
        final(module).nodes == old(module).nodes,
        final(module).execution_order == old(module).execution_order,
        final(module).errors == old(module).errors,
        same_shape(old(module).ports, final(module).ports),
        ports_framed(
            old(module).nodes,
            old(module).ports,
            final(module).ports,
            *env,
            old(module).execution_order@,
        ),
{
    let ghost start = *module;
    let ghost order = module.execution_order@;
    let mut frames: Vec<Vec<FrameStep>> = Vec::new();
    let mut left: i32 = frames_to_process;
    let mut more = true;
    while more
        invariant
            ready(start),
            start == *old(module),
            order == start.execution_order@,
            ready(*module),
            module.nodes == start.nodes,
            module.execution_order == start.execution_order,
            module.errors == start.errors,
            same_shape(start.ports, module.ports),
            0 <= left <= frames_to_process,
            frames@.len() == frames_to_process - left,
            more ==> left > 0,
            !more ==> left == 0,
            forall|k: int|
                0 <= k < frames@.len() ==> steps_view((#[trigger] frames@[k])@) == frame_steps(
                    start.nodes,
                    start.ports,
                    order,
                ),
            frames@.len() > 0 ==> ports_framed(start.nodes, start.ports, module.ports, *env, order),
            frames@.len() == 0 ==> module.ports == start.ports,
        decreases left + (if more { 1int } else { 0int }),
    {
        let ghost before = module.ports;
        let ghost seen = frames@;
        let steps = process_frame(env, module);
        proof {
            lemma_frame_steps_by_shape(start, before, order);
            assert forall|j: int| 0 <= j < start.ports.values@.len() implies ports_same_shape(
                #[trigger] start.ports.values@[j],
                module.ports.values@[j],
            ) by {
                assert(ports_same_shape(start.ports.values@[j], before.values@[j]));
                assert(ports_same_shape(before.values@[j], module.ports.values@[j]));
            }
            if seen.len() > 0 {
                lemma_frames_compose(start.nodes, start.ports, before, module.ports, *env, order);
            }
        }
        frames.push(steps);
        proof {
            assert forall|k: int| 0 <= k < frames@.len() implies steps_view(
                (#[trigger] frames@[k])@,
            ) == frame_steps(start.nodes, start.ports, order) by {
                if k < seen.len() {
                    assert(frames@[k] == seen[k]);
                }
            }
        }
        let (go_on, rest) = next_frame(left);
        left = rest;
        more = go_on;
    }
    frames
}

/// Reads a module text, plans the execution order and processes the given
/// number of frames. Returns the module and the text with ids and comments.
pub fn run_single_module(text: &str, env: &ProcessNodeEnvironment, frames_to_process: i32) -> (r:
    Result<(Module, String), RunError>)
    requires
        frames_to_process > 0,
    ensures
        match r {
            Ok((module, annotated)) => exists|parsed: Module|
                #[trigger] describes(text@, parsed, annotated@) && ran(parsed, module, *env),
            Err(RunError::Parse(error)) => rejects(text@, error),
            Err(RunError::Plan(PlanError::Cycle)) => exists|parsed: Module, annotated: Seq<char>|
                #[trigger] describes(text@, parsed, annotated) && has_cycle(parsed.ports),
        },
{
    let (mut module, annotated) = match parse_module_text(text) {
        Ok(parsed) => parsed,
        Err(error) => {
            return Err(RunError::Parse(error));
        },
    };
    let ghost parsed = module;
    match plan_execution_order(&mut module) {
        Ok(()) => {},
        Err(error) => {
            proof {
                assert(describes(text@, parsed, annotated@) && has_cycle(parsed.ports));
            }
            return Err(RunError::Plan(error));
        },
    }
    proof {
        assert forall|i: int| 0 <= i < module.execution_order@.len() implies module.nodes.has(
            (#[trigger] module.execution_order@[i])@,
        ) by {
            lemma_order_names(module, i);
        }
    }
    let frames = run_frames(env, &mut module, frames_to_process);
    proof {
        assert(describes(text@, parsed, annotated@) && ran(parsed, module, *env));
    }
    let r: Result<(Module, String), RunError> = Ok((module, annotated));
    proof {
        assert(r->Ok_0.0 == module);
        assert(r->Ok_0.1@ == annotated@);
    }
    r
}

/// Every entry of an execution order is the id of a node of the module.
pub proof fn lemma_order_names(module: Module, i: int)
    requires
        module.wf(),
        is_execution_order(module.ports, module.execution_order@),
        0 <= i < module.execution_order@.len(),
    ensures
        module.nodes.has(module.execution_order@[i]@),
{
    let order = module.execution_order@;
    let names = module.ports.names@;
    crate::module::execution_order::lemma_order_covers(module.ports, order, i);
    let k = choose|k: int| 0 <= k < names.len() && names[k]@ == order[i]@;
    assert(module.nodes.names@[k]@ == names[k]@);
    lemma_position_of(module.nodes.names@, order[i]@);
}

} // verus!
