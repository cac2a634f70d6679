//! Sends data out of the module.

use vstd::prelude::*;
use vstd::string::StringExecFns;
use crate::module::Module;
use crate::nodes::common::{
    declare_ports, invalid_parameter_message, resolve, resolves, signature, unknown_parameter_message,
    unknown_source_message, FrameStep,
    FrameStepView, Inlet, InletView, NodeKind, OutletKind, Ports, ProcessNode,
    ProcessNodeEnvironment, Reading, ReadingView,
};
use crate::nodes::{constructed, node_annotated, read_children};
use crate::parse::IndentBlock;
use crate::parse_nodes::parameter::{
    parameter_key, parameter_name, parameter_of, parse_node_parameter, PortParameter,
    PortParameterView,
};
use crate::table::Table;
use crate::text::same_text;

verus! {

/// The sink of a module. What arrives at its inlet `in` leaves the module.
pub struct OutNode {}

/// What a sink makes of a parameter line. It knows one key, `in`; a line
/// with any other key is not understood, whatever its form. `in` takes the
/// outlet of another node.
pub open spec fn out_reading(text: Seq<char>, known: Set<(Seq<char>, Seq<char>)>) -> ReadingView {
    if parameter_name(text) != "in"@ {
        ReadingView::Fault(unknown_parameter_message())
    } else {
        match parameter_of(text) {
            Ok(PortParameterView::Inlet { name, node_id, outlet }) => if known.contains(
                (node_id, outlet),
            ) {
                ReadingView::Source(InletView { node_id, outlet })
            } else {
                ReadingView::Fault(unknown_source_message())
            },
            Ok(_) => ReadingView::Fault(invalid_parameter_message()),
            Err(message) => ReadingView::Fault(message),
        }
    }
}

/// Reads one parameter line of a sink.
pub fn read_parameter(text: &str, ports: &Table<Ports>) -> (r: Reading)
    requires
        ports.names.len() == ports.values.len(),
    ensures
        r@ == out_reading(text@, signature(*ports)),
{
    let key = parameter_key(text);
    if !same_text(key.as_str(), "in") {
        return Reading::Fault(String::from_str("  # ERROR: Unknown parameter"));
    }
    match parse_node_parameter(text) {
        Ok(PortParameter::Inlet { name, node_id, outlet }) => {
            if resolve(ports, node_id.as_str(), outlet.as_str()).is_some() {
                Reading::Source(Inlet { node_id, outlet })
            } else {
                Reading::Fault(String::from_str("  # ERROR: Unknown node or outlet"))
            }
        },
        Ok(_) => Reading::Fault(String::from_str("  # ERROR: Invalid parameter")),
        Err(message) => Reading::Fault(message),
    }
}

/// Makes the sink that the block describes, for the node at `index` of the
/// module. The block's lines that are not understood get their comment.
pub fn new(indent_block: &mut IndentBlock, module: &mut Module, index: usize) -> (node: OutNode)
    requires
        old(module).wf(),
        index < old(module).ports.values.len(),
    ensures
        final(module).wf(),
        node_annotated(
            *old(indent_block),
            *final(indent_block),
            NodeKind::Out,
            signature(old(module).ports),
        ),
        constructed(
            *old(module),
            *final(module),
            index as int,
            NodeKind::Out,
            "in"@,
            old(indent_block).children@,
        ),
{
    let (value, source) = read_children(
        indent_block,
        NodeKind::Out,
        &module.ports,
        &mut module.errors,
    );
    match source {
        Some(inlet) => {
            module.ports.values[index].connect("in", inlet);
        },
        None => {},
    }
    OutNode {  }
}

/// What a sink does in a frame. It looks up what its inlet `in` is connected
/// to. A signal outlet it mixes: it adds up the voices sample by sample.
/// Mixing an audio outlet is not supported. Without a source that can be
/// found the sink has nothing to do.
pub open spec fn out_step(node_id: Seq<char>, ports: Table<Ports>) -> FrameStepView {
    let own = ports.values@[ports.position(node_id)];
    match own.source("in"@) {
        None => FrameStepView::Idle { node_id },
        Some(inlet) => if !resolves(ports, inlet.node_id, inlet.outlet) {
            FrameStepView::Idle { node_id }
        } else {
            let producer = ports.values@[ports.position(inlet.node_id)];
            match producer.outlets.values@[producer.outlets.position(inlet.outlet)].kind {
                OutletKind::Signal => FrameStepView::Mix { node_id, source: inlet },
                OutletKind::Audio => FrameStepView::Unsupported { node_id },
                OutletKind::Midi => FrameStepView::Idle { node_id },
            }
        },
    }
}

impl ProcessNode for OutNode {
    open spec fn step(&self, node_id: Seq<char>, ports: Table<Ports>) -> FrameStepView {
        out_step(node_id, ports)
    }

    open spec fn effect(&self, env: ProcessNodeEnvironment, before: Ports, after: Ports) -> bool {
        after == before
    }

    open spec fn holds(&self, voice: usize) -> bool {
        false
    }

    open spec fn kind(&self) -> NodeKind {
        NodeKind::Out
    }

    fn on_init(&self, env: &ProcessNodeEnvironment) -> (ports: Ports) {
        declare_ports(NodeKind::Out)
    }

    fn on_process(
        &self,
        node_id: &str,
        env: &ProcessNodeEnvironment,
        ports: &mut Table<Ports>,
    ) -> (step: FrameStep) {
        let id = String::from_str(node_id);
        let k = match ports.find(node_id) {
            Some(k) => k,
            None => {
                return FrameStep::Idle { node_id: id };
            },
        };
        let own = &ports.values[k];
        let slot = match own.inlets.find("in") {
            Some(slot) => slot,
            None => {
                return FrameStep::Idle { node_id: id };
            },
        };
        match &own.inlets.values[slot] {
            None => FrameStep::Idle { node_id: id },
            Some(inlet) => match resolve(ports, inlet.node_id.as_str(), inlet.outlet.as_str()) {
                None => FrameStep::Idle { node_id: id },
                Some((producer, outlet)) => match ports.values[producer].outlets.values[outlet].kind {
                    OutletKind::Signal => FrameStep::Mix {
                        node_id: id,
                        source: Inlet {
                            node_id: inlet.node_id.clone(),
                            outlet: inlet.outlet.clone(),
                        },
                    },
                    OutletKind::Audio => FrameStep::Unsupported { node_id: id },
                    OutletKind::Midi => FrameStep::Idle { node_id: id },
                },
            },
        }
    }

    fn holds_voice(&self, voice: usize) -> (held: bool) {
        false
    }
}

} // verus!
