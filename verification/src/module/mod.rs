//! One module: its nodes, their ports and the order in which they run.

use vstd::prelude::*;
use crate::nodes::common::Ports;
use crate::nodes::Node;
use crate::table::Table;

pub mod execution_order;
pub mod process;

verus! {

/// The graph that one document describes.
pub struct Module {
    /// The nodes by id. An id without a node stands for a declaration that
    /// could not be read.
    pub nodes: Table<Option<Node>>,
    /// The ports of each node, under the same ids in the same order.
    pub ports: Table<Ports>,
    /// In which order the nodes should be executed: a list of node ids.
    pub execution_order: Vec<String>,
    /// What was wrong with the document, for the user to read.
    pub errors: Vec<String>,
}

impl Module {
    /// Node ids are unique, and nodes and ports stand under the same ids.
    pub open spec fn wf(&self) -> bool {
        &&& self.nodes.wf()
        &&& self.ports.wf()
        &&& self.nodes.names@.len() == self.ports.names@.len()
        &&& forall|k: int|
            0 <= k < self.nodes.names@.len() ==> (#[trigger] self.nodes.names@[k])@
                == self.ports.names@[k]@
        &&& forall|k: int| 0 <= k < self.ports.values@.len() ==> (#[trigger] self.ports.values@[k]).wf()
    }

    /// A module without nodes.
    pub fn new() -> (module: Self)
        ensures
            module.wf(),
            module.nodes.names@.len() == 0,
            module.execution_order@.len() == 0,
            module.errors@.len() == 0,
    {
        Module {
            nodes: Table::new(),
            ports: Table::new(),
            execution_order: Vec::new(),
            errors: Vec::new(),
        }
    }

    /// Whether the module is ready to process frames: its execution order
    /// has an entry for each of its nodes.
    pub fn is_ok(&self) -> (ok: bool)
        ensures
            ok == (self.execution_order@.len() == self.nodes.names@.len()),
    {
        self.execution_order.len() == self.nodes.len()
    }
}

} // verus!
