//! The sine wave generator.

use vstd::prelude::*;
use vstd::string::StringExecFns;
use crate::module::Module;
use crate::nodes::common::{
    declare_ports, invalid_parameter_message, resolve, signature, unknown_parameter_message,
    unknown_source_message, FrameStep, FrameStepView, Inlet, InletView, NodeKind, OutletKind,
    OutletView, Ports, ProcessNode, ProcessNodeEnvironment, Reading, ReadingView,
};
use crate::nodes::{chosen_value, constructed, node_annotated, read_children};
use crate::parse::IndentBlock;
use crate::parse_nodes::parameter::{
    parameter_key, parameter_name, parameter_of, parse_node_parameter, PortParameter,
    PortParameterView,
};
use crate::table::Table;
use crate::text::{chars_of, same_text};
use crate::number::{is_float_literal, is_float_literal_chars};

verus! {

/// A generator of a sine wave on its outlet `out`.
pub struct SineNode {
    /// The frequency in Hertz, as it was written: used while nothing is
    /// connected to the inlet `frequency`.
    pub frequency: String,
}

/// The frequency of a generator that was given none.
pub open spec fn default_frequency() -> Seq<char> {
    "440"@
}

pub open spec fn invalid_float_message() -> Seq<char> {
    "  # ERROR: Invalid float value: invalid float literal"@
}

/// What a generator makes of a parameter line. It knows one key,
/// `frequency`; a line with any other key is not understood, whatever its
/// form. `frequency` takes a constant number or the outlet of another node.
pub open spec fn sine_reading(text: Seq<char>, known: Set<(Seq<char>, Seq<char>)>) -> ReadingView {
    if parameter_name(text) != "frequency"@ {
        ReadingView::Fault(unknown_parameter_message())
    } else {
        match parameter_of(text) {
            Ok(PortParameterView::Constant { name, value }) => if is_float_literal(value) {
                ReadingView::Value(value)
            } else {
                ReadingView::Fault(invalid_float_message())
            },
            Ok(PortParameterView::Inlet { name, node_id, outlet }) => if known.contains(
                (node_id, outlet),
            ) {
                ReadingView::Source(InletView { node_id, outlet })
            } else {
                ReadingView::Fault(unknown_source_message())
            },
            Ok(PortParameterView::Outlet { name, node_id, inlet }) => ReadingView::Fault(
                invalid_parameter_message(),
            ),
            Err(message) => ReadingView::Fault(message),
        }
    }
}

/// Reads one parameter line of a generator.
pub fn read_parameter(text: &str, ports: &Table<Ports>) -> (r: Reading)
    requires
        ports.names.len() == ports.values.len(),
    ensures
        r@ == sine_reading(text@, signature(*ports)),
{
    let key = parameter_key(text);
    if !same_text(key.as_str(), "frequency") {
        return Reading::Fault(String::from_str("  # ERROR: Unknown parameter"));
    }
    match parse_node_parameter(text) {
        Ok(PortParameter::Constant { name, value }) => {
            let digits = chars_of(value.as_str());
            if is_float_literal_chars(&digits) {
                Reading::Value(value)
            } else {
                Reading::Fault(
                    String::from_str("  # ERROR: Invalid float value: invalid float literal"),
                )
            }
        },
        Ok(PortParameter::Inlet { name, node_id, outlet }) => {
            if resolve(ports, node_id.as_str(), outlet.as_str()).is_some() {
                Reading::Source(Inlet { node_id, outlet })
            } else {
                Reading::Fault(String::from_str("  # ERROR: Unknown node or outlet"))
            }
        },
        Ok(PortParameter::Outlet { name, node_id, inlet }) => Reading::Fault(
            String::from_str("  # ERROR: Invalid parameter"),
        ),
        Err(message) => Reading::Fault(message),
    }
}

/// Makes the generator that the block describes, for the node at `index` of
/// the module. The block's lines that are not understood get their comment,
/// and the entry of the node gets its one outlet, the signal outlet `out`.
pub fn new(indent_block: &mut IndentBlock, module: &mut Module, index: usize) -> (node: SineNode)
    requires
        old(module).wf(),
        index < old(module).ports.values.len(),
    ensures
        final(module).wf(),
        node_annotated(
            *old(indent_block),
            *final(indent_block),
            NodeKind::Sine,
            signature(old(module).ports),
        ),
        constructed(
            *old(module),
            *final(module),
            index as int,
            NodeKind::Sine,
            "frequency"@,
            old(indent_block).children@,
        ),
        node.frequency@ == (match chosen_value(
            NodeKind::Sine,
            signature(old(module).ports),
            old(indent_block).children@,
        ) {
            Some(value) => value,
            None => default_frequency(),
        }),
{
    let (value, source) = read_children(
        indent_block,
        NodeKind::Sine,
        &module.ports,
        &mut module.errors,
    );
    let ghost start = module.ports.values@[index as int];
    match source {
        Some(inlet) => {
            module.ports.values[index].connect("frequency", inlet);
        },
        None => {},
    }
    let ghost connected = module.ports.values@[index as int];
    module.ports.values[index].signal("out");
    proof {
        let declared = module.ports.values@[index as int];
        assert(declared.inlets == connected.inlets);
        assert(connected.outlets == start.outlets);
        assert forall|other: Seq<char>| other != "frequency"@ implies #[trigger] declared.source(
            other,
        ) == start.source(other) by {
            assert(connected.source(other) == start.source(other));
        }
        assert forall|other: Seq<char>| other != "frequency"@ implies #[trigger] declared.inlets.has(
            other,
        ) == start.inlets.has(other) by {
            assert(connected.inlets.has(other) == start.inlets.has(other));
        }
        assert forall|other: Seq<char>| other != "out"@ implies #[trigger] declared.outlet(other)
            == start.outlet(other) by {
            assert(connected.outlet(other) == start.outlet(other));
        }
        assert forall|other: Seq<char>| other != "out"@ implies #[trigger] declared.outlets.has(
            other,
        ) == start.outlets.has(other) by {
            assert(connected.outlets.has(other) == start.outlets.has(other));
        }
        assert(declared.source("frequency"@) == connected.source("frequency"@));
    }
    let frequency = match value {
        Some(text) => text,
        None => String::from_str("440"),
    };
    SineNode { frequency }
}

/// What a generator does in a frame. With its inlet `frequency` in use it
/// would have to follow another node's signal, which it cannot do. Else it
/// fills its signal outlet `out`.
pub open spec fn sine_step(node: SineNode, node_id: Seq<char>, own: Ports) -> FrameStepView {
    if own.inlets.has("frequency"@) {
        FrameStepView::Unsupported { node_id }
    } else if own.outlets.has("out"@) && own.outlets.values@[own.outlets.position("out"@)].kind
        == OutletKind::Signal {
        FrameStepView::Generate { node_id, outlet: "out"@, frequency: node.frequency@ }
    } else {
        FrameStepView::Idle { node_id }
    }
}

/// How a frame changes the ports of a generator: where it fills its outlet
/// and the outlet has no voice yet, the outlet gets one voice of the size of
/// a frame. Nothing else changes.
pub open spec fn sine_effect(buffer_size: usize, before: Ports, after: Ports) -> bool {
    let at = before.outlets.position("out"@);
    if !before.inlets.has("frequency"@) && before.outlets.has("out"@)
        && before.outlets.values@[at].kind == OutletKind::Signal
        && before.outlets.values@[at].voices@.len() == 0 {
        &&& after.inlets == before.inlets
        &&& after.outlets.names == before.outlets.names
        &&& after.outlets.values@.len() == before.outlets.values@.len()
        &&& forall|j: int|
            0 <= j < before.outlets.values@.len() && j != at ==> #[trigger] after.outlets.values@[j]
                == before.outlets.values@[j]
        &&& after.outlets.values@[at]@ == (OutletView {
            kind: OutletKind::Signal,
            voices: seq![buffer_size],
        })
    } else {
        after == before
    }
}

impl ProcessNode for SineNode {
    open spec fn step(&self, node_id: Seq<char>, ports: Table<Ports>) -> FrameStepView {
        sine_step(*self, node_id, ports.values@[ports.position(node_id)])
    }

    open spec fn effect(&self, env: ProcessNodeEnvironment, before: Ports, after: Ports) -> bool {
        sine_effect(env.buffer_size, before, after)
    }

    open spec fn holds(&self, voice: usize) -> bool {
        voice == 0
    }

    open spec fn kind(&self) -> NodeKind {
        NodeKind::Sine
    }

    fn on_init(&self, env: &ProcessNodeEnvironment) -> (ports: Ports) {
        declare_ports(NodeKind::Sine)
    }

    fn on_process(
        &self,
        node_id: &str,
        env: &ProcessNodeEnvironment,
        ports: &mut Table<Ports>,
    ) -> (step: FrameStep) {
        let id = String::from_str(node_id);
        let k = match ports.find(node_id) {
            Some(k) => k,
            None => {
                return FrameStep::Idle { node_id: id };
            },
        };
        if ports.values[k].inlets.contains_key("frequency") {
            return FrameStep::Unsupported { node_id: id };
        }
        match ports.values[k].outlets.find("out") {
            Some(j) => {
                proof {
                    crate::table::lemma_position_of(ports.values@[k as int].outlets.names@, "out"@);
                }
                match ports.values[k].outlets.values[j].kind {
                    OutletKind::Signal => {
                        if ports.values[k].outlets.values[j].voices.len() == 0 {
                            ports.values[k].outlets.values[j].voices.push(env.buffer_size);
                            proof {
                                let before = old(ports).values@[k as int];
                                let after = ports.values@[k as int];
                                assert(after.outlets.values@[j as int].voices@ == seq![
                                    env.buffer_size,
                                ]);
                                assert(after.outlets.values@[j as int]@ == (OutletView {
                                    kind: OutletKind::Signal,
                                    voices: seq![env.buffer_size],
                                }));
                            }
                        }
                        FrameStep::Generate {
                            node_id: id,
                            outlet: String::from_str("out"),
                            frequency: self.frequency.clone(),
                        }
                    },
                    _ => FrameStep::Idle { node_id: id },
                }
            },
            None => FrameStep::Idle { node_id: id },
        }
    }

    fn holds_voice(&self, voice: usize) -> (held: bool) {
        voice == 0
    }
}

} // verus!
