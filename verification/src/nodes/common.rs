//! Ports, voices and the contract that every node type keeps.

use vstd::prelude::*;
use vstd::string::StringExecFns;
use crate::table::Table;

verus! {

/// What stays the same for every frame.
pub struct ProcessNodeEnvironment {
    /// Number of samples in a frame.
    pub buffer_size: usize,
    /// Samples per second.
    pub sample_rate: i32,
}

/// Where an inlet gets its data from.
pub struct Inlet {
    /// Id of the node that this inlet is connected to.
    pub node_id: String,
    /// Name of the outlet of that node.
    pub outlet: String,
}

pub struct InletView {
    pub node_id: Seq<char>,
    pub outlet: Seq<char>,
}

impl View for Inlet {
    type V = InletView;

    open spec fn view(&self) -> InletView {
        InletView { node_id: self.node_id@, outlet: self.outlet@ }
    }
}

/// What an outlet carries.
#[derive(Clone, Copy, Debug, PartialEq, Eq, Structural)]
pub enum OutletKind {
    /// Several channels of samples per voice.
    Audio,
    /// One channel of samples per voice.
    Signal,
    /// A list of events per voice.
    Midi,
}

/// Outlet of a node. It holds any number of voices, which only the node that
/// owns the outlet creates or removes. The samples themselves are kept by
/// whoever computes them; the outlet records how many each voice holds.
pub struct Outlet {
    pub kind: OutletKind,
    /// For each voice the length of its buffer.
    pub voices: Vec<usize>,
}

pub struct OutletView {
    pub kind: OutletKind,
    pub voices: Seq<usize>,
}

impl View for Outlet {
    type V = OutletView;

    open spec fn view(&self) -> OutletView {
        OutletView { kind: self.kind, voices: self.voices@ }
    }
}

impl Outlet {
    pub fn signal() -> (outlet: Self)
        ensures
            outlet@ == (OutletView { kind: OutletKind::Signal, voices: Seq::empty() }),
    {
        Outlet { kind: OutletKind::Signal, voices: Vec::new() }
    }

    pub fn audio() -> (outlet: Self)
        ensures
            outlet@ == (OutletView { kind: OutletKind::Audio, voices: Seq::empty() }),
    {
        Outlet { kind: OutletKind::Audio, voices: Vec::new() }
    }

    pub fn midi() -> (outlet: Self)
        ensures
            outlet@ == (OutletView { kind: OutletKind::Midi, voices: Seq::empty() }),
    {
        Outlet { kind: OutletKind::Midi, voices: Vec::new() }
    }
}

/// The ports of one node.
pub struct Ports {
    /// Declared inlets by name, each with its source if it is connected.
    pub inlets: Table<Option<Inlet>>,
    /// Declared outlets by name.
    pub outlets: Table<Outlet>,
}

impl Ports {
    pub open spec fn wf(&self) -> bool {
        self.inlets.wf() && self.outlets.wf()
    }

    /// The source of the inlet called `name`, if there is such an inlet and
    /// it is connected.
    pub open spec fn source(&self, name: Seq<char>) -> Option<InletView> {
        if self.inlets.has(name) {
            match self.inlets.values[self.inlets.position(name)] {
                Some(inlet) => Some(inlet@),
                None => None,
            }
        } else {
            None
        }
    }

    pub fn new() -> (ports: Ports)
        ensures
            ports.wf(),
            ports.inlets.names@.len() == 0,
            ports.outlets.names@.len() == 0,
    {
        Ports { inlets: Table::new(), outlets: Table::new() }
    }

    /// The outlet called `name`, if there is one.
    pub open spec fn outlet(&self, name: Seq<char>) -> Option<OutletView> {
        if self.outlets.has(name) {
            Some(self.outlets.values[self.outlets.position(name)]@)
        } else {
            None
        }
    }

    /// Create a new outlet configured to send signals.
    pub fn signal(&mut self, name: &str)
        requires
            old(self).wf(),
        ensures
            final(self).wf(),
            final(self).inlets == old(self).inlets,
            final(self).outlet(name@) == Some(
                OutletView { kind: OutletKind::Signal, voices: Seq::empty() },
            ),
            forall|other: Seq<char>|
                other != name@ ==> #[trigger] final(self).outlet(other) == old(self).outlet(other),
            forall|other: Seq<char>|
                other != name@ ==> #[trigger] final(self).outlets.has(other) == old(self).outlets.has(other),
            final(self).outlets.has(name@),
            final(self).outlets.names@.len() == old(self).outlets.names@.len() + (if old(self).outlets.has(name@) {
                0int
            } else {
                1int
            }),
    {
        self.outlets.insert(String::from_str(name), Outlet::signal());
        proof {
            assert forall|other: Seq<char>| other != name@ implies #[trigger] final(self).outlets.has(other) == old(self).outlets.has(other) by {
                if old(self).outlets.has(other) {
                    assert(final(self).outlets.position(other) == old(self).outlets.position(
                        other,
                    ));
                }
            }
            assert forall|other: Seq<char>| other != name@ implies #[trigger] final(self).outlet(
                other,
            ) == old(self).outlet(other) by {
                crate::table::lemma_position_of(old(self).outlets.names@, name@);
                crate::table::lemma_position_of(old(self).outlets.names@, other);
                if old(self).outlets.has(other) {
                    assert(final(self).outlets.position(other) == old(self).outlets.position(
                        other,
                    ));
                }
            }
        }
    }

    /// Register an inlet that is not connected.
    pub fn inlet(&mut self, name: &str)
        requires
            old(self).wf(),
        ensures
            final(self).wf(),
            final(self).outlets == old(self).outlets,
            final(self).inlets.has(name@),
            final(self).source(name@) is None,
            forall|other: Seq<char>|
                other != name@ ==> #[trigger] final(self).source(other) == old(self).source(other),
            forall|other: Seq<char>|
                other != name@ ==> #[trigger] final(self).inlets.has(other) == old(self).inlets.has(other),
    {
        self.inlets.insert(String::from_str(name), None);
        proof {
            assert forall|other: Seq<char>| other != name@ implies #[trigger] final(self).source(
                other,
            ) == old(self).source(other) by {
                crate::table::lemma_position_of(old(self).inlets.names@, name@);
                crate::table::lemma_position_of(old(self).inlets.names@, other);
                if old(self).inlets.has(other) {
                    assert(final(self).inlets.position(other) == old(self).inlets.position(other));
                }
            }
            assert forall|other: Seq<char>| other != name@ implies #[trigger] final(self).inlets.has(other) == old(self).inlets.has(other) by {
                if old(self).inlets.has(other) {
                    assert(final(self).inlets.position(other) == old(self).inlets.position(other));
                }
            }
        }
    }

    /// Connect the inlet called `name` to `inlet`, registering it if need be.
    pub fn connect(&mut self, name: &str, inlet: Inlet)
        requires
            old(self).wf(),
        ensures
            final(self).wf(),
            final(self).outlets == old(self).outlets,
            final(self).inlets.has(name@),
            final(self).source(name@) == Some(inlet@),
            forall|other: Seq<char>|
                other != name@ ==> #[trigger] final(self).source(other) == old(self).source(other),
            forall|other: Seq<char>|
                other != name@ ==> #[trigger] final(self).inlets.has(other) == old(self).inlets.has(other),
            final(self).inlets.names@.len() == old(self).inlets.names@.len() + (if old(self).inlets.has(name@) {
                0int
            } else {
                1int
            }),
    {
        self.inlets.insert(String::from_str(name), Some(inlet));
        proof {
            assert forall|other: Seq<char>| other != name@ implies #[trigger] final(self).source(
                other,
            ) == old(self).source(other) by {
                crate::table::lemma_position_of(old(self).inlets.names@, name@);
                crate::table::lemma_position_of(old(self).inlets.names@, other);
                if old(self).inlets.has(other) {
                    assert(final(self).inlets.position(other) == old(self).inlets.position(other));
                }
            }
            assert forall|other: Seq<char>| other != name@ implies #[trigger] final(self).inlets.has(other) == old(self).inlets.has(other) by {
                if old(self).inlets.has(other) {
                    assert(final(self).inlets.position(other) == old(self).inlets.position(other));
                }
            }
        }
    }
}

/// The node types that a header can name.
#[derive(Clone, Copy, Debug, PartialEq, Eq, Structural)]
pub enum NodeKind {
    /// A sine wave generator.
    Sine,
    /// The sink that sends what it gets out of the module.
    Out,
    /// A type that the library does not know.
    Unknown,
}

/// The inlet that a node of the given kind has.
pub open spec fn inlet_name(kind: NodeKind) -> Seq<char> {
    match kind {
        NodeKind::Out => "in"@,
        _ => "frequency"@,
    }
}

/// The outlets that a node of the given kind declares: a generator has the
/// signal outlet `out`, the other kinds have none.
pub open spec fn declared_outlets(kind: NodeKind, ports: Ports) -> bool {
    match kind {
        NodeKind::Sine => ports.outlets.names@.len() == 1 && ports.outlet("out"@) == Some(
            OutletView { kind: OutletKind::Signal, voices: Seq::empty() },
        ),
        _ => ports.outlets.names@.len() == 0,
    }
}

/// The ports of a node of the given kind whose inlet has the given source.
pub open spec fn built_ports(kind: NodeKind, ports: Ports, source: Option<InletView>) -> bool {
    &&& ports.wf()
    &&& declared_outlets(kind, ports)
    &&& match source {
        None => ports.inlets.names@.len() == 0,
        Some(inlet) => ports.inlets.names@.len() == 1 && ports.source(inlet_name(kind)) == Some(
            inlet,
        ),
    }
}

/// The ports that a node of the given kind starts with.
pub fn declare_ports(kind: NodeKind) -> (ports: Ports)
    ensures
        built_ports(kind, ports, None),
{
    let mut ports = Ports::new();
    match kind {
        NodeKind::Sine => {
            proof {
                crate::table::lemma_position_of(ports.outlets.names@, "out"@);
            }
            ports.signal("out");
        },
        _ => {},
    }
    ports
}

/// What a node makes of one of its parameter lines.
pub enum Reading {
    /// The line gives the node's one constant its value.
    Value(String),
    /// The line connects the node's one inlet.
    Source(Inlet),
    /// The line is not understood; the comment says why.
    Fault(String),
}

pub enum ReadingView {
    Value(Seq<char>),
    Source(InletView),
    Fault(Seq<char>),
}

impl View for Reading {
    type V = ReadingView;

    open spec fn view(&self) -> ReadingView {
        match self {
            Reading::Value(value) => ReadingView::Value(value@),
            Reading::Source(inlet) => ReadingView::Source(inlet@),
            Reading::Fault(message) => ReadingView::Fault(message@),
        }
    }
}

/// The comment that a reading puts behind its line; empty if there is none.
pub open spec fn fault_of(reading: ReadingView) -> Seq<char> {
    match reading {
        ReadingView::Fault(message) => message,
        _ => Seq::empty(),
    }
}

/// Whether the port table holds a node called `node_id` that has declared an
/// outlet called `outlet`.
pub open spec fn resolves(ports: Table<Ports>, node_id: Seq<char>, outlet: Seq<char>) -> bool {
    ports.has(node_id) && ports.values[ports.position(node_id)].outlets.has(outlet)
}

/// The outlets that a port table offers, as pairs of node id and outlet
/// name.
pub open spec fn signature(ports: Table<Ports>) -> Set<(Seq<char>, Seq<char>)> {
    Set::new(|pair: (Seq<char>, Seq<char>)| resolves(ports, pair.0, pair.1))
}

/// Looks a source up in the port table. On success the result holds the
/// index of the node and of its outlet.
pub fn resolve(ports: &Table<Ports>, node_id: &str, outlet: &str) -> (r: Option<(usize, usize)>)
    requires
        ports.names.len() == ports.values.len(),
    ensures
        match r {
            Some((node, port)) => resolves(*ports, node_id@, outlet@) && node == ports.position(
                node_id@,
            ) && port == ports.values[node as int].outlets.position(outlet@),
            None => !resolves(*ports, node_id@, outlet@),
        },
{
    match ports.find(node_id) {
        Some(node) => match ports.values[node].outlets.find(outlet) {
            Some(port) => Some((node, port)),
            None => None,
        },
        None => None,
    }
}

pub open spec fn unknown_parameter_message() -> Seq<char> {
    "  # ERROR: Unknown parameter"@
}

pub open spec fn invalid_parameter_message() -> Seq<char> {
    "  # ERROR: Invalid parameter"@
}

pub open spec fn unknown_source_message() -> Seq<char> {
    "  # ERROR: Unknown node or outlet"@
}

/// What a node has to do in one frame. The library decides it; whoever owns
/// the sample buffers carries it out.
pub enum FrameStep {
    /// Fill every voice of the node's outlet with a sine wave of the given
    /// frequency, going on from where the last frame stopped.
    Generate { node_id: String, outlet: String, frequency: String },
    /// Add up, sample by sample, the voices of the source and send the sum
    /// out of the module.
    Mix { node_id: String, source: Inlet },
    /// The node is connected in a way that it cannot handle.
    Unsupported { node_id: String },
    /// The node has nothing to do.
    Idle { node_id: String },
}

pub enum FrameStepView {
    Generate { node_id: Seq<char>, outlet: Seq<char>, frequency: Seq<char> },
    Mix { node_id: Seq<char>, source: InletView },
    Unsupported { node_id: Seq<char> },
    Idle { node_id: Seq<char> },
}

impl View for FrameStep {
    type V = FrameStepView;

    open spec fn view(&self) -> FrameStepView {
        match self {
            FrameStep::Generate { node_id, outlet, frequency } => FrameStepView::Generate {
                node_id: node_id@,
                outlet: outlet@,
                frequency: frequency@,
            },
            FrameStep::Mix { node_id, source } => FrameStepView::Mix {
                node_id: node_id@,
                source: source@,
            },
            FrameStep::Unsupported { node_id } => FrameStepView::Unsupported { node_id: node_id@ },
            FrameStep::Idle { node_id } => FrameStepView::Idle { node_id: node_id@ },
        }
    }
}

/// The two port sets have the same inlets and the same outlets of the same
/// kinds; they can differ in the voices that the outlets hold.
pub open spec fn ports_same_shape(a: Ports, b: Ports) -> bool {
    &&& a.inlets == b.inlets
    &&& a.outlets.names == b.outlets.names
    &&& a.outlets.values@.len() == b.outlets.values@.len()
    &&& forall|j: int|
        0 <= j < a.outlets.values@.len() ==> (#[trigger] a.outlets.values@[j]).kind
            == b.outlets.values@[j].kind
}

/// The two port tables hold port sets of the same shape under the same ids.
pub open spec fn same_shape(a: Table<Ports>, b: Table<Ports>) -> bool {
    &&& a.names == b.names
    &&& a.values@.len() == b.values@.len()
    &&& forall|k: int|
        0 <= k < a.values@.len() ==> ports_same_shape(#[trigger] a.values@[k], b.values@[k])
}

/// What every node type offers to the frame processor.
pub trait ProcessNode {
    /// What the node has to do in a frame, given the port table.
    spec fn step(&self, node_id: Seq<char>, ports: Table<Ports>) -> FrameStepView;

    /// How a frame changes the node's own ports.
    spec fn effect(&self, env: ProcessNodeEnvironment, before: Ports, after: Ports) -> bool;

    /// Whether the node still needs the voice.
    spec fn holds(&self, voice: usize) -> bool;

    /// The type of the node.
    spec fn kind(&self) -> NodeKind;

    /// Set up the node: called once, before the first frame. Returns the
    /// ports that a node of this type declares, none of them connected.
    fn on_init(&self, env: &ProcessNodeEnvironment) -> (ports: Ports)
        ensures
            built_ports(self.kind(), ports, None),
    ;

    /// Process a frame. The node looks its sources up in the port table and
    /// touches no ports but its own, of which it only changes the voices.
    fn on_process(
        &self,
        node_id: &str,
        env: &ProcessNodeEnvironment,
        ports: &mut Table<Ports>,
    ) -> (step: FrameStep)
        requires
            old(ports).names@.len() == old(ports).values@.len(),
            forall|k: int|
                0 <= k < old(ports).values@.len() ==> (#[trigger] old(ports).values@[k]).wf(),
            old(ports).has(node_id@),
        ensures
            step@ == self.step(node_id@, *old(ports)),
            final(ports).names == old(ports).names,
            final(ports).values@.len() == old(ports).values@.len(),
            forall|k: int|
                0 <= k < old(ports).values@.len() && k != old(ports).position(node_id@)
                    ==> #[trigger] final(ports).values@[k] == old(ports).values@[k],
            self.effect(
                *env,
                old(ports).values@[old(ports).position(node_id@)],
                final(ports).values@[old(ports).position(node_id@)],
            ),
    ;

    /// Whether the node still needs the voice, so that voices that no node
    /// holds can be given up.
    fn holds_voice(&self, voice: usize) -> (held: bool)
        ensures
            held == self.holds(voice),
    ;
}

} // verus!
