//! Processes the nodes of a module, one frame at a time.

use vstd::prelude::*;
use crate::module::Module;
use crate::nodes::common::{
    ports_same_shape, same_shape, FrameStep, FrameStepView, Ports, ProcessNode,
    ProcessNodeEnvironment,
};
use crate::nodes::{lemma_effect_composes, lemma_effect_keeps_shape, lemma_step_by_shape, Node};
use crate::table::{lemma_position_is, lemma_position_of, position_of, Table};

pub mod session;

verus! {

/// The module can process frames: its execution order has as many entries as
/// it has nodes, and each entry is the id of one of them.
pub open spec fn ready(module: Module) -> bool {
    &&& module.wf()
    &&& module.execution_order@.len() == module.nodes.names@.len()
    &&& forall|i: int|
        0 <= i < module.execution_order@.len() ==> module.nodes.has(
            (#[trigger] module.execution_order@[i])@,
        )
}

pub open spec fn steps_view(steps: Seq<FrameStep>) -> Seq<FrameStepView> {
    Seq::new(steps.len(), |i: int| steps[i]@)
}

/// The steps of a frame: one for each entry of the order that has a node,
/// in that order.
pub open spec fn frame_steps(
    nodes: Table<Option<Node>>,
    ports: Table<Ports>,
    order: Seq<String>,
) -> Seq<FrameStepView>
    decreases order.len(),
{
    if order.len() == 0 {
        Seq::empty()
    } else {
        let front = frame_steps(nodes, ports, order.drop_last());
        let id = order.last()@;
        match nodes.values@[nodes.position(id)] {
            Some(node) => front.push(node.step(id, ports)),
            None => front,
        }
    }
}

/// Whether node `k` has a step in a frame that goes by `order`.
pub open spec fn runs(nodes: Table<Option<Node>>, order: Seq<String>, k: int) -> bool {
    nodes.values@[k] is Some && position_of(order, nodes.names@[k]@) < order.len()
}

/// What a frame that goes by `order` makes of the port table: the ports of
/// each node that has a step change as the node says, and no others.
pub open spec fn ports_framed(
    nodes: Table<Option<Node>>,
    before: Table<Ports>,
    after: Table<Ports>,
    env: ProcessNodeEnvironment,
    order: Seq<String>,
) -> bool {
    &&& after.names == before.names
    &&& after.values@.len() == before.values@.len()
    &&& forall|k: int|
        0 <= k < before.values@.len() ==> if runs(nodes, order, k) {
            (nodes.values@[k]->0).effect(env, before.values@[k], #[trigger] after.values@[k])
        } else {
            after.values@[k] == before.values@[k]
        }
}

pub proof fn lemma_position_push(names: Seq<String>, last: String, name: Seq<char>)
    ensures
        position_of(names.push(last), name) == (if position_of(names, name) < names.len() {
            position_of(names, name)
        } else if last@ == name {
            names.len() as int
        } else {
            names.len() as int + 1
        }),
{
    lemma_position_of(names, name);
    let p = position_of(names, name);
    let longer = names.push(last);
    if p < names.len() {
        assert forall|j: int| 0 <= j < p implies (#[trigger] longer[j])@ != name by {
            assert(longer[j] == names[j]);
        }
        assert(longer[p] == names[p]);
        lemma_position_is(longer, name, p);
    } else {
        assert forall|j: int| 0 <= j < names.len() implies (#[trigger] longer[j])@ != name by {
            assert(longer[j] == names[j]);
        }
        if last@ == name {
            lemma_position_is(longer, name, names.len() as int);
        } else {
            lemma_position_is(longer, name, names.len() as int + 1);
        }
    }
}

/// What frame after frame makes of the port table, one frame makes.
pub proof fn lemma_frames_compose(
    nodes: Table<Option<Node>>,
    first: Table<Ports>,
    second: Table<Ports>,
    third: Table<Ports>,
    env: ProcessNodeEnvironment,
    order: Seq<String>,
)
    requires
        ports_framed(nodes, first, second, env, order),
        ports_framed(nodes, second, third, env, order),
    ensures
        ports_framed(nodes, first, third, env, order),
{
    assert forall|k: int| 0 <= k < first.values@.len() implies if runs(nodes, order, k) {
        (nodes.values@[k]->0).effect(env, first.values@[k], #[trigger] third.values@[k])
    } else {
        third.values@[k] == first.values@[k]
    } by {
        assert(second.values@[k] == second.values@[k]);
        if runs(nodes, order, k) {
            lemma_effect_composes(
                nodes.values@[k]->0,
                env,
                first.values@[k],
                second.values@[k],
                third.values@[k],
            );
        }
    }
}

/// In a module, nodes and ports stand at the same places.
pub proof fn lemma_same_places(module: Module, name: Seq<char>)
    requires
        module.wf(),
    ensures
        module.ports.position(name) == module.nodes.position(name),
{
    lemma_position_of(module.nodes.names@, name);
    let k = module.nodes.position(name);
    assert forall|j: int| 0 <= j < k implies (#[trigger] module.ports.names@[j])@ != name by {
        assert(module.nodes.names@[j]@ == module.ports.names@[j]@);
    }
    if k < module.nodes.names@.len() {
        assert(module.nodes.names@[k]@ == module.ports.names@[k]@);
    }
    lemma_position_is(module.ports.names@, name, k);
}

/// Process a single frame: every node of the module that could be read gets
/// its turn, in execution order. Returns, in that order, what each node has
/// to compute.
pub fn process_frame(env: &ProcessNodeEnvironment, module: &mut Module) -> (steps: Vec<FrameStep>)
    requires
        ready(*old(module)),
    ensures
        ready(*final(module)),
        final(module).nodes == old(module).nodes,
        final(module).execution_order == old(module).execution_order,
        final(module).errors == old(module).errors,
        same_shape(old(module).ports, final(module).ports),
        ports_framed(
            old(module).nodes,
            old(module).ports,
            final(module).ports,
            *env,
            old(module).execution_order@,
        ),
        steps_view(steps@) == frame_steps(
            old(module).nodes,
            old(module).ports,
            old(module).execution_order@,
        ),
{
    let ghost nodes = module.nodes;
    let ghost start = module.ports;
    let ghost order = module.execution_order@;
    let mut steps: Vec<FrameStep> = Vec::new();
    let mut i: usize = 0;
    proof {
        assert(order.take(0) == Seq::<String>::empty());
        assert(steps_view(steps@) == Seq::<FrameStepView>::empty());
        assert forall|k: int| 0 <= k < start.values@.len() implies !runs(nodes, order.take(0), k) by {}
    }
    while i < module.execution_order.len()
        invariant
            i <= order.len(),
            ready(*old(module)),
            nodes == old(module).nodes,
            start == old(module).ports,
            order == old(module).execution_order@,
            module.nodes == nodes,
            module.execution_order == old(module).execution_order,
            module.errors == old(module).errors,
            module.wf(),
            same_shape(start, module.ports),
            ports_framed(nodes, start, module.ports, *env, order.take(i as int)),
            steps_view(steps@) == frame_steps(nodes, start, order.take(i as int)),
        decreases order.len() - i,
    {
        let ghost before = module.ports;
        let ghost done = order.take(i as int);
        let ghost name = order[i as int]@;
        proof {
            assert(order.take(i + 1) == done.push(order[i as int]));
            assert(order.take(i + 1).drop_last() == done);
            assert(order.take(i + 1).last() == order[i as int]);
            lemma_same_places(*module, name);
            lemma_position_of(nodes.names@, name);
        }
        let k = match module.nodes.find(module.execution_order[i].as_str()) {
            Some(k) => k,
            None => {
                proof {
                    assert(nodes.has(order[i as int]@));
                    assert(false);
                }
                0
            },
        };
        match &module.nodes.values[k] {
            Some(node) => {
                let step = node.on_process(
                    module.execution_order[i].as_str(),
                    env,
                    &mut module.ports,
                );
                proof {
                    assert forall|j: int| 0 <= j < before.values@.len() implies ports_same_shape(
                        #[trigger] before.values@[j],
                        start.values@[j],
                    ) by {
                        assert(ports_same_shape(start.values@[j], before.values@[j]));
                    }
                    lemma_step_by_shape(*node, name, before, start);
                    lemma_effect_keeps_shape(
                        *node,
                        *env,
                        before.values@[k as int],
                        module.ports.values@[k as int],
                    );
                    assert(steps_view(steps@.push(step)) == steps_view(steps@).push(step@));
                    assert forall|j: int| 0 <= j < start.values@.len() implies ports_same_shape(
                        #[trigger] start.values@[j],
                        module.ports.values@[j],
                    ) by {
                        assert(ports_same_shape(start.values@[j], before.values@[j]));
                    }
                    assert forall|j: int| 0 <= j < module.ports.values@.len() implies (
                    #[trigger] module.ports.values@[j]).wf() by {
                        assert(before.values@[j].wf());
                    }
                    assert forall|j: int| 0 <= j < start.values@.len() implies if runs(
                        nodes,
                        order.take(i + 1),
                        j,
                    ) {
                        (nodes.values@[j]->0).effect(
                            *env,
                            start.values@[j],
                            #[trigger] module.ports.values@[j],
                        )
                    } else {
                        module.ports.values@[j] == start.values@[j]
                    } by {
                        lemma_position_push(done, order[i as int], nodes.names@[j]@);
                        assert(before.values@[j] == before.values@[j]);
                        if j == k {
                            if runs(nodes, done, j) {
                                lemma_effect_composes(
                                    *node,
                                    *env,
                                    start.values@[j],
                                    before.values@[j],
                                    module.ports.values@[j],
                                );
                            }
                        } else {
                            assert(nodes.names@[j]@ != nodes.names@[k as int]@);
                        }
                    }
                }
                steps.push(step);
            },
            None => {
                proof {
                    assert forall|j: int| 0 <= j < start.values@.len() implies if runs(
                        nodes,
                        order.take(i + 1),
                        j,
                    ) {
                        (nodes.values@[j]->0).effect(
                            *env,
                            start.values@[j],
                            #[trigger] module.ports.values@[j],
                        )
                    } else {
                        module.ports.values@[j] == start.values@[j]
                    } by {
                        lemma_position_push(done, order[i as int], nodes.names@[j]@);
                        assert(before.values@[j] == before.values@[j]);
                        if j != k {
                            assert(nodes.names@[j]@ != nodes.names@[k as int]@);
                        }
                    }
                }
            },
        }
        i += 1;
    }
    proof {
        assert(order.take(order.len() as int) == order);
    }
    steps
}

} // verus!
