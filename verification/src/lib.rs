//! A text-driven dataflow graph engine for signal processing.
//!
//! A module is written as indented text: one header line per node, with the
//! node's parameters and connections on the lines indented below it. The
//! library reads such a text, gives every node an id, builds the graph,
//! writes what it could not understand back into the text as comments, plans
//! the order in which the nodes run, and says for each frame what every node
//! has to compute.

pub mod module;
pub mod nodes;
pub mod number;
pub mod parse;
pub mod parse_nodes;
pub mod project;
pub mod table;
pub mod text;
pub mod ui;
