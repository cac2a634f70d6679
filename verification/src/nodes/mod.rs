//! The node types and what they have in common.

use vstd::prelude::*;
use crate::nodes::common::{OutletKind, OutletView, 
    fault_of, ports_same_shape, same_shape, signature, FrameStep, FrameStepView, Inlet, InletView,
    NodeKind, Ports, ProcessNode, ProcessNodeEnvironment, Reading, ReadingView,
};
use crate::nodes::out::{out_reading, OutNode};
use crate::nodes::sine::{sine_reading, SineNode};
use crate::table::lemma_position_of;
use crate::module::Module;
use crate::parse::IndentBlock;
use crate::table::Table;
use crate::text::string_views;

pub mod common;
pub mod out;
pub mod sine;

verus! {

/// A node of one of the known types.
pub enum Node {
    Sine(SineNode),
    Out(OutNode),
}

/// What a node of the given kind makes of a parameter line, where `known`
/// holds the outlets that the module offers.
pub open spec fn reading_of(
    kind: NodeKind,
    text: Seq<char>,
    known: Set<(Seq<char>, Seq<char>)>,
) -> ReadingView {
    match kind {
        NodeKind::Out => out_reading(text, known),
        _ => sine_reading(text, known),
    }
}

/// The value of the last parameter line that gives one.
pub open spec fn chosen_value(
    kind: NodeKind,
    known: Set<(Seq<char>, Seq<char>)>,
    children: Seq<IndentBlock>,
) -> Option<Seq<char>>
    decreases children.len(),
{
    if children.len() == 0 {
        None
    } else {
        match reading_of(kind, children.last().text@, known) {
            ReadingView::Value(value) => Some(value),
            _ => chosen_value(kind, known, children.drop_last()),
        }
    }
}

/// The source of the last parameter line that gives one.
pub open spec fn chosen_source(
    kind: NodeKind,
    known: Set<(Seq<char>, Seq<char>)>,
    children: Seq<IndentBlock>,
) -> Option<InletView>
    decreases children.len(),
{
    if children.len() == 0 {
        None
    } else {
        match reading_of(kind, children.last().text@, known) {
            ReadingView::Source(inlet) => Some(inlet),
            _ => chosen_source(kind, known, children.drop_last()),
        }
    }
}

/// The parameter lines that are not understood, each with its comment.
pub open spec fn faults(
    kind: NodeKind,
    known: Set<(Seq<char>, Seq<char>)>,
    children: Seq<IndentBlock>,
) -> Seq<Seq<char>>
    decreases children.len(),
{
    if children.len() == 0 {
        Seq::empty()
    } else {
        let front = faults(kind, known, children.drop_last());
        let text = children.last().text@;
        match reading_of(kind, text, known) {
            ReadingView::Fault(message) => front.push(text + message),
            _ => front,
        }
    }
}

/// `after` is `before` with the comment of its reading behind its text.
pub open spec fn line_annotated(
    before: IndentBlock,
    after: IndentBlock,
    kind: NodeKind,
    known: Set<(Seq<char>, Seq<char>)>,
) -> bool {
    &&& after.text@ == before.text@ + fault_of(reading_of(kind, before.text@, known))
    &&& after.children == before.children
    &&& after.line_number == before.line_number
    &&& after.deep_count == before.deep_count
}

/// `after` is `before` with every parameter line annotated.
pub open spec fn node_annotated(
    before: IndentBlock,
    after: IndentBlock,
    kind: NodeKind,
    known: Set<(Seq<char>, Seq<char>)>,
) -> bool {
    &&& after.text@ == before.text@
    &&& after.line_number == before.line_number
    &&& after.deep_count == before.deep_count
    &&& after.children.len() == before.children.len()
    &&& forall|j: int|
        0 <= j < before.children.len() ==> line_annotated(
            before.children[j],
            #[trigger] after.children[j],
            kind,
            known,
        )
}

pub open spec fn option_view(value: Option<String>) -> Option<Seq<char>> {
    match value {
        Some(text) => Some(text@),
        None => None,
    }
}

pub open spec fn inlet_view(inlet: Option<Inlet>) -> Option<InletView> {
    match inlet {
        Some(source) => Some(source@),
        None => None,
    }
}

/// The inlets of `after` are those of `before` with `source`, if there is
/// one, connected to the inlet called `name`.
pub open spec fn wired(before: Ports, after: Ports, name: Seq<char>, source: Option<InletView>) -> bool {
    match source {
        None => after.inlets == before.inlets,
        Some(inlet) => {
            &&& after.inlets.has(name)
            &&& after.source(name) == Some(inlet)
            &&& forall|other: Seq<char>|
                other != name ==> #[trigger] after.source(other) == before.source(other)
            &&& forall|other: Seq<char>|
                other != name ==> #[trigger] after.inlets.has(other) == before.inlets.has(other)
            &&& after.inlets.names@.len() == before.inlets.names@.len() + (if before.inlets.has(
                name,
            ) {
                0int
            } else {
                1int
            })
        },
    }
}

/// The outlets of `after` are those of `before` with the outlets that a node
/// of the given kind declares: a generator declares its signal outlet `out`,
/// without a voice, whether or not there was an outlet of that name; the
/// other kinds declare none.
pub open spec fn outlets_declared(kind: NodeKind, before: Ports, after: Ports) -> bool {
    match kind {
        NodeKind::Sine => {
            &&& after.outlet("out"@) == Some(
                OutletView { kind: OutletKind::Signal, voices: Seq::empty() },
            )
            &&& forall|other: Seq<char>|
                other != "out"@ ==> #[trigger] after.outlet(other) == before.outlet(other)
            &&& forall|other: Seq<char>|
                other != "out"@ ==> #[trigger] after.outlets.has(other) == before.outlets.has(
                    other,
                )
            &&& after.outlets.has("out"@)
            &&& after.outlets.names@.len() == before.outlets.names@.len() + (if before.outlets.has(
                "out"@,
            ) {
                0int
            } else {
                1int
            })
        },
        _ => after.outlets == before.outlets,
    }
}

/// `after` is `before` with the node at `index` constructed from its block:
/// its errors listed, its outlets declared and its inlet connected. Nothing
/// else has changed.
pub open spec fn constructed(
    before: Module,
    after: Module,
    index: int,
    kind: NodeKind,
    inlet_name: Seq<char>,
    children: Seq<IndentBlock>,
) -> bool {
    let known = signature(before.ports);
    &&& after.nodes == before.nodes
    &&& after.execution_order == before.execution_order
    &&& string_views(after.errors@) == string_views(before.errors@) + faults(kind, known, children)
    &&& after.ports.names == before.ports.names
    &&& after.ports.values@.len() == before.ports.values@.len()
    &&& forall|j: int|
        0 <= j < before.ports.values@.len() && j != index ==> #[trigger] after.ports.values@[j]
            == before.ports.values@[j]
    &&& after.ports.values@[index].wf()
    &&& outlets_declared(kind, before.ports.values@[index], after.ports.values@[index])
    &&& wired(
        before.ports.values@[index],
        after.ports.values@[index],
        inlet_name,
        chosen_source(kind, known, children),
    )
}

/// Reads the parameter lines of a node of the given kind. Lines that are
/// not understood get their comment and are listed in `errors`. Returns the
/// value and the source that the node ends up with.
pub fn read_children(
    indent_block: &mut IndentBlock,
    kind: NodeKind,
    ports: &Table<Ports>,
    errors: &mut Vec<String>,
) -> (r: (Option<String>, Option<Inlet>))
    requires
        ports.names.len() == ports.values.len(),
    ensures
        node_annotated(*old(indent_block), *final(indent_block), kind, signature(*ports)),
        string_views(final(errors)@) == string_views(old(errors)@) + faults(
            kind,
            signature(*ports),
            old(indent_block).children@,
        ),
        option_view(r.0) == chosen_value(kind, signature(*ports), old(indent_block).children@),
        inlet_view(r.1) == chosen_source(kind, signature(*ports), old(indent_block).children@),
{
    let ghost known = signature(*ports);
    let ghost before = old(indent_block).children@;
    let mut value: Option<String> = None;
    let mut source: Option<Inlet> = None;
    let mut j: usize = 0;
    proof {
        assert(before.take(0) == Seq::<IndentBlock>::empty());
        assert(string_views(errors@) + Seq::<Seq<char>>::empty() == string_views(errors@));
    }
    while j < indent_block.children.len()
        invariant
            j <= indent_block.children.len(),
            ports.names.len() == ports.values.len(),
            known == signature(*ports),
            before == old(indent_block).children@,
            indent_block.text@ == old(indent_block).text@,
            indent_block.line_number == old(indent_block).line_number,
            indent_block.deep_count == old(indent_block).deep_count,
            indent_block.children.len() == before.len(),
            forall|i: int|
                0 <= i < j ==> line_annotated(
                    before[i],
                    #[trigger] indent_block.children[i],
                    kind,
                    known,
                ),
            forall|i: int| j <= i < before.len() ==> #[trigger] indent_block.children[i] == before[i],
            string_views(errors@) == string_views(old(errors)@) + faults(
                kind,
                known,
                before.take(j as int),
            ),
            option_view(value) == chosen_value(kind, known, before.take(j as int)),
            inlet_view(source) == chosen_source(kind, known, before.take(j as int)),
        decreases indent_block.children.len() - j,
    {
        proof {
            assert(before.take(j + 1).drop_last() == before.take(j as int));
            assert(before.take(j + 1).last() == before[j as int]);
        }
        let reading = match kind {
            NodeKind::Out => crate::nodes::out::read_parameter(
                indent_block.children[j].text.as_str(),
                ports,
            ),
            _ => crate::nodes::sine::read_parameter(indent_block.children[j].text.as_str(), ports),
        };
        match reading {
            Reading::Value(text) => {
                value = Some(text);
                proof {
                    assert(before[j as int].text@ + Seq::<char>::empty() == before[j as int].text@);
                }
            },
            Reading::Source(inlet) => {
                source = Some(inlet);
                proof {
                    assert(before[j as int].text@ + Seq::<char>::empty() == before[j as int].text@);
                }
            },
            Reading::Fault(message) => {
                indent_block.children[j].text.append(message.as_str());
                let line = indent_block.children[j].text.clone();
                proof {
                    let seen = faults(kind, known, before.take(j as int));
                    assert(string_views(errors@.push(line)) == string_views(errors@).push(line@));
                    assert((string_views(old(errors)@) + seen).push(line@) == string_views(
                        old(errors)@,
                    ) + seen.push(line@));
                }
                errors.push(line);
            },
        }
        j += 1;
    }
    proof {
        assert(before.take(before.len() as int) == before);
    }
    (value, source)
}

impl ProcessNode for Node {
    open spec fn step(&self, node_id: Seq<char>, ports: Table<Ports>) -> FrameStepView {
        match self {
            Node::Sine(node) => node.step(node_id, ports),
            Node::Out(node) => node.step(node_id, ports),
        }
    }

    open spec fn effect(&self, env: ProcessNodeEnvironment, before: Ports, after: Ports) -> bool {
        match self {
            Node::Sine(node) => node.effect(env, before, after),
            Node::Out(node) => node.effect(env, before, after),
        }
    }

    open spec fn holds(&self, voice: usize) -> bool {
        match self {
            Node::Sine(node) => node.holds(voice),
            Node::Out(node) => node.holds(voice),
        }
    }

    open spec fn kind(&self) -> NodeKind {
        match self {
            Node::Sine(node) => node.kind(),
            Node::Out(node) => node.kind(),
        }
    }

    fn on_init(&self, env: &ProcessNodeEnvironment) -> (ports: Ports) {
        match self {
            Node::Sine(node) => node.on_init(env),
            Node::Out(node) => node.on_init(env),
        }
    }

    fn on_process(
        &self,
        node_id: &str,
        env: &ProcessNodeEnvironment,
        ports: &mut Table<Ports>,
    ) -> (step: FrameStep) {
        match self {
            Node::Sine(node) => node.on_process(node_id, env, ports),
            Node::Out(node) => node.on_process(node_id, env, ports),
        }
    }

    fn holds_voice(&self, voice: usize) -> (held: bool) {
        match self {
            Node::Sine(node) => node.holds_voice(voice),
            Node::Out(node) => node.holds_voice(voice),
        }
    }
}

/// A frame leaves the shape of a node's ports as it is.
pub proof fn lemma_effect_keeps_shape(
    node: Node,
    env: ProcessNodeEnvironment,
    before: Ports,
    after: Ports,
)
    requires
        node.effect(env, before, after),
    ensures
        ports_same_shape(before, after),
        before.wf() ==> after.wf(),
{
    lemma_position_of(before.outlets.names@, "out"@);
}

/// What two frames do to a node's ports, one frame does.
pub proof fn lemma_effect_composes(
    node: Node,
    env: ProcessNodeEnvironment,
    first: Ports,
    second: Ports,
    third: Ports,
)
    requires
        node.effect(env, first, second),
        node.effect(env, second, third),
    ensures
        node.effect(env, first, third),
{
    lemma_position_of(first.outlets.names@, "out"@);
}

/// What a node has to do depends on the shape of the port table alone.
pub proof fn lemma_step_by_shape(node: Node, node_id: Seq<char>, a: Table<Ports>, b: Table<Ports>)
    requires
        same_shape(a, b),
        a.names@.len() == a.values@.len(),
        forall|k: int| 0 <= k < a.values@.len() ==> (#[trigger] a.values@[k]).wf(),
        a.has(node_id),
    ensures
        node.step(node_id, a) == node.step(node_id, b),
{
    lemma_position_of(a.names@, node_id);
    let k = a.position(node_id);
    let own = a.values@[k];
    let other = b.values@[k];
    assert(ports_same_shape(own, other));
    assert(own.wf());
    match node {
        Node::Sine(sine) => {
            lemma_position_of(own.outlets.names@, "out"@);
            let at = own.outlets.position("out"@);
            if own.outlets.has("out"@) {
                assert(own.outlets.values@[at].kind == other.outlets.values@[at].kind);
            }
        },
        Node::Out(out) => {
            assert(own.source("in"@) == other.source("in"@));
            match own.source("in"@) {
                Some(inlet) => {
                    lemma_position_of(a.names@, inlet.node_id);
                    let p = a.position(inlet.node_id);
                    if p < a.names@.len() {
                        let producer = a.values@[p];
                        assert(ports_same_shape(producer, b.values@[p]));
                        assert(producer.wf());
                        lemma_position_of(producer.outlets.names@, inlet.outlet);
                        let at = producer.outlets.position(inlet.outlet);
                        if at < producer.outlets.values@.len() {
                            assert(producer.outlets.values@[at].kind
                                == b.values@[p].outlets.values@[at].kind);
                        }
                    }
                },
                None => {},
            }
        },
    }
}

} // verus!
