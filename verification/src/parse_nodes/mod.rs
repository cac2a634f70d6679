//! Reading a module: the nodes are read from the blocks of the text, and
//! what is wrong is written into the lines it is wrong in.
//!
//! A module text looks like this:
//!
//! ```text
//! sine id1
//! 	frequency 440
//! out id2
//! 	in <- id1:out
//! ```

use vstd::prelude::*;
use vstd::string::StringExecFns;
use crate::module::Module;
use crate::nodes::common::{
    built_ports, declare_ports, fault_of, signature, NodeKind, Ports,
};
use crate::nodes::sine::default_frequency;
use crate::nodes::{chosen_source, chosen_value, faults, reading_of, Node};
use crate::parse::{
    document_lines, first_indent_fault, flatten, render, IndentBlock, Line, ParseError,
};
use crate::parse_nodes::ids::{
    allocate_ids, identified, initialize_nodes, lemma_identified_text_unchanged,
};
use crate::table::{lemma_position_of, Table};
use crate::text::{
    chars_of, find_char, first_index, same_text, slice_of, split, string_of, string_views, trim,
    trim_chars,
};

pub mod ids;
pub mod inserted;
pub mod lines;
pub mod parameter;
pub mod sine;
pub mod unique;

verus! {

/// A command in a module text.
pub struct Command {
    /// The command text excluding the `<` and `>` sign.
    pub text: String,
    /// Line number in the text being parsed.
    pub line_number: usize,
    /// Offset of the command within its line.
    pub offset: usize,
}

/// The commands in a text. Module texts have no commands yet, so that there
/// are none to be found in any text.
pub fn parse_commands(text: &str) -> (commands: Vec<Command>)
    ensures
        commands@.len() == 0,
{
    Vec::new()
}

/// The type that a node header names: its first word.
pub open spec fn header_type(text: Seq<char>) -> Seq<char> {
    text.take(first_index(text, ' '))
}

/// The id on a node header: what follows the first space, trimmed.
pub open spec fn header_name(text: Seq<char>) -> Option<Seq<char>> {
    if first_index(text, ' ') < text.len() {
        Some(trim(text.skip(first_index(text, ' ') + 1)))
    } else {
        None
    }
}

/// The node type of a name: the table of the types that can be constructed.
pub open spec fn kind_of(name: Seq<char>) -> NodeKind {
    if name == "sine"@ {
        NodeKind::Sine
    } else if name == "out"@ {
        NodeKind::Out
    } else {
        NodeKind::Unknown
    }
}

pub open spec fn header_kind(text: Seq<char>) -> NodeKind {
    kind_of(header_type(text))
}

pub open spec fn unknown_node_message() -> Seq<char> {
    "  # ERROR: Unknown node"@
}

/// Header `k` has no id, or the id of a header above it.
pub open spec fn header_fault(blocks: Seq<IndentBlock>, k: int) -> bool {
    header_name(blocks[k].text@) is None || exists|j: int|
        0 <= j < k && header_name((#[trigger] blocks[j]).text@) == header_name(blocks[k].text@)
}

/// Header `k` is the first without an id of its own.
pub open spec fn first_header_fault(blocks: Seq<IndentBlock>, k: int) -> bool {
    &&& 0 <= k < blocks.len()
    &&& header_fault(blocks, k)
    &&& forall|j: int| 0 <= j < k ==> !header_fault(blocks, j)
}

/// Every header has its entry in the module, with the outlets of its kind
/// and nothing else yet.
pub open spec fn declared(module: Module, blocks: Seq<IndentBlock>) -> bool {
    &&& module.wf()
    &&& module.nodes.names@.len() == blocks.len()
    &&& module.execution_order@.len() == 0
    &&& module.errors@.len() == 0
    &&& forall|k: int|
        0 <= k < blocks.len() ==> node_declared(
            #[trigger] module.nodes.names@[k],
            module.nodes.values@[k],
            module.ports.values@[k],
            blocks[k],
        )
}

pub open spec fn node_declared(
    name: String,
    node: Option<Node>,
    ports: Ports,
    block: IndentBlock,
) -> bool {
    &&& header_name(block.text@) == Some(name@)
    &&& node is None
    &&& built_ports(header_kind(block.text@), ports, None)
}

/// The entry of a module for the node that `block` describes, where `known`
/// holds the outlets that the module offers.
pub open spec fn node_built(
    name: String,
    node: Option<Node>,
    ports: Ports,
    known: Set<(Seq<char>, Seq<char>)>,
    block: IndentBlock,
) -> bool {
    let kind = header_kind(block.text@);
    &&& header_name(block.text@) == Some(name@)
    &&& match kind {
        NodeKind::Unknown => node is None && built_ports(kind, ports, None),
        NodeKind::Sine => {
            &&& node matches Some(Node::Sine(sine))
            &&& sine.frequency@ == (match chosen_value(kind, known, block.children@) {
                Some(value) => value,
                None => default_frequency(),
            })
            &&& built_ports(kind, ports, chosen_source(kind, known, block.children@))
        },
        NodeKind::Out => {
            &&& node matches Some(Node::Out(out))
            &&& built_ports(kind, ports, chosen_source(kind, known, block.children@))
        },
    }
}

/// The parameter lines of a node with their comments, and below each what
/// is nested in it.
pub open spec fn parameter_lines(
    kind: NodeKind,
    known: Set<(Seq<char>, Seq<char>)>,
    children: Seq<IndentBlock>,
) -> Seq<Line>
    decreases children.len(),
{
    if children.len() == 0 {
        Seq::empty()
    } else {
        let child = children.last();
        parameter_lines(kind, known, children.drop_last()) + seq![
            Line {
                number: child.line_number as nat,
                indent: 1,
                text: child.text@ + fault_of(reading_of(kind, child.text@, known)),
            },
        ] + flatten(child.children@, 2)
    }
}

/// The lines of a node after it has been read. A node of unknown type gets
/// a comment on its header, and none of its other lines is touched.
pub open spec fn node_lines(known: Set<(Seq<char>, Seq<char>)>, block: IndentBlock) -> Seq<Line> {
    match header_kind(block.text@) {
        NodeKind::Unknown => seq![
            Line {
                number: block.line_number as nat,
                indent: 0,
                text: block.text@ + unknown_node_message(),
            },
        ] + flatten(block.children@, 1),
        kind => seq![block.line(0)] + parameter_lines(kind, known, block.children@),
    }
}

/// The lines of a module after its nodes have been read.
pub open spec fn module_lines(known: Set<(Seq<char>, Seq<char>)>, blocks: Seq<IndentBlock>) -> Seq<
    Line,
>
    decreases blocks.len(),
{
    if blocks.len() == 0 {
        Seq::empty()
    } else {
        module_lines(known, blocks.drop_last()) + node_lines(known, blocks.last())
    }
}

/// The lines of a node that got a comment, as they read with it.
pub open spec fn node_faults(known: Set<(Seq<char>, Seq<char>)>, block: IndentBlock) -> Seq<
    Seq<char>,
> {
    match header_kind(block.text@) {
        NodeKind::Unknown => seq![block.text@ + unknown_node_message()],
        kind => faults(kind, known, block.children@),
    }
}

/// The lines of a module that got a comment, as they read with it.
pub open spec fn module_faults(known: Set<(Seq<char>, Seq<char>)>, blocks: Seq<IndentBlock>) -> Seq<
    Seq<char>,
>
    decreases blocks.len(),
{
    if blocks.len() == 0 {
        Seq::empty()
    } else {
        module_faults(known, blocks.drop_last()) + node_faults(known, blocks.last())
    }
}

/// The module that the blocks describe: an entry for each header, in order,
/// the errors listed, and no execution order yet.
pub open spec fn built(module: Module, blocks: Seq<IndentBlock>) -> bool {
    &&& module.wf()
    &&& module.nodes.names@.len() == blocks.len()
    &&& module.execution_order@.len() == 0
    &&& string_views(module.errors@) == module_faults(signature(module.ports), blocks)
    &&& forall|k: int|
        0 <= k < blocks.len() ==> node_built(
            #[trigger] module.nodes.names@[k],
            module.nodes.values@[k],
            module.ports.values@[k],
            signature(module.ports),
            blocks[k],
        )
}

/// Changing the ports of one node changes nothing in what a table offers,
/// as long as the node keeps the outlets it has by name.
pub proof fn lemma_signature_stable(before: Table<Ports>, after: Table<Ports>, index: int)
    requires
        after.names == before.names,
        after.values@.len() == before.values@.len(),
        before.names@.len() == before.values@.len(),
        0 <= index < before.values@.len(),
        forall|j: int|
            0 <= j < before.values@.len() && j != index ==> #[trigger] after.values@[j]
                == before.values@[j],
        forall|name: Seq<char>| #[trigger]
            after.values@[index].outlets.has(name) == before.values@[index].outlets.has(name),
    ensures
        signature(after) == signature(before),
{
    assert forall|pair: (Seq<char>, Seq<char>)| signature(after).contains(pair) == signature(
        before,
    ).contains(pair) by {
        lemma_position_of(before.names@, pair.0);
        let p = before.position(pair.0);
        if p < before.names@.len() {
            if p != index {
                assert(after.values@[p] == before.values@[p]);
            }
        }
    }
    assert(signature(after) =~= signature(before));
}

/// Annotated parameter lines flatten to the lines that the annotation
/// describes.
pub proof fn lemma_parameter_lines(
    before: Seq<IndentBlock>,
    after: Seq<IndentBlock>,
    kind: NodeKind,
    known: Set<(Seq<char>, Seq<char>)>,
)
    requires
        after.len() == before.len(),
        forall|j: int|
            0 <= j < before.len() ==> crate::nodes::line_annotated(
                before[j],
                #[trigger] after[j],
                kind,
                known,
            ),
    ensures
        flatten(after, 1) == parameter_lines(kind, known, before),
    decreases before.len(),
{
    if before.len() > 0 {
        let b = before.drop_last();
        let a = after.drop_last();
        assert forall|j: int| 0 <= j < b.len() implies crate::nodes::line_annotated(
            b[j],
            #[trigger] a[j],
            kind,
            known,
        ) by {
            assert(a[j] == after[j]);
            assert(b[j] == before[j]);
        }
        lemma_parameter_lines(b, a, kind, known);
        assert(crate::nodes::line_annotated(before.last(), after[after.len() - 1], kind, known));
        assert(after.last().line(1) == Line {
            number: before.last().line_number as nat,
            indent: 1,
            text: before.last().text@ + fault_of(reading_of(kind, before.last().text@, known)),
        });
    }
}

/// Splits a node header into the node's type and its id.
pub fn parse_node_header(text: &str) -> (r: (String, Option<String>))
    ensures
        r.0@ == header_type(text@),
        crate::nodes::option_view(r.1) == header_name(text@),
{
    let chars = chars_of(text);
    let at = find_char(&chars, ' ');
    let name = slice_of(&chars, 0, at);
    if at < chars.len() {
        let rest = slice_of(&chars, at + 1, chars.len());
        let id = trim_chars(&rest);
        (string_of(&name), Some(string_of(&id)))
    } else {
        (string_of(&name), None)
    }
}

/// Looks a node type up by its name.
pub fn node_kind(name: &str) -> (kind: NodeKind)
    ensures
        kind == kind_of(name@),
{
    if same_text(name, "sine") {
        NodeKind::Sine
    } else if same_text(name, "out") {
        NodeKind::Out
    } else {
        NodeKind::Unknown
    }
}

/// Enters every node header into the module: its id, no node yet, and the
/// ports that its kind declares. Fails at the first header that has no id of
/// its own.
pub fn declare_nodes(module: &mut Module, blocks: &Vec<IndentBlock>) -> (r: Result<(), ParseError>)
    requires
        old(module).wf(),
        old(module).nodes.names@.len() == 0,
        old(module).execution_order@.len() == 0,
        old(module).errors@.len() == 0,
    ensures
        match r {
            Ok(()) => declared(*final(module), blocks@),
            Err(ParseError::MissingId { line_number }) => exists|k: int|
                first_header_fault(blocks@, k) && header_name(blocks[k].text@) is None
                    && blocks[k].line_number == line_number && declared(
                    *final(module),
                    blocks@.take(k),
                ),
            Err(ParseError::DuplicateId { line_number }) => exists|k: int|
                first_header_fault(blocks@, k) && header_name(blocks[k].text@) is Some
                    && blocks[k].line_number == line_number && declared(
                    *final(module),
                    blocks@.take(k),
                ),
            Err(_) => false,
        },
{
    let mut k: usize = 0;
    while k < blocks.len()
        invariant
            k <= blocks.len(),
            module.wf(),
            module.nodes.names@.len() == k,
            module.execution_order@.len() == 0,
            module.errors@.len() == 0,
            forall|j: int| 0 <= j < k ==> !header_fault(blocks@, j),
            forall|j: int|
                0 <= j < k ==> node_declared(
                    #[trigger] module.nodes.names@[j],
                    module.nodes.values@[j],
                    module.ports.values@[j],
                    blocks[j],
                ),
        decreases blocks.len() - k,
    {
        let (name, id) = parse_node_header(blocks[k].text.as_str());
        match id {
            None => {
                proof {
                    assert(first_header_fault(blocks@, k as int));
                    assert forall|j: int| 0 <= j < k implies node_declared(
                        #[trigger] module.nodes.names@[j],
                        module.nodes.values@[j],
                        module.ports.values@[j],
                        blocks@.take(k as int)[j],
                    ) by {
                        assert(blocks@.take(k as int)[j] == blocks[j]);
                    }
                }
                return Err(ParseError::MissingId { line_number: blocks[k].line_number });
            },
            Some(id) => {
                proof {
                    lemma_position_of(module.nodes.names@, id@);
                    lemma_position_of(module.ports.names@, id@);
                }
                if module.nodes.contains_key(id.as_str()) {
                    proof {
                        let j = module.nodes.position(id@);
                        assert(node_declared(
                            module.nodes.names@[j],
                            module.nodes.values@[j],
                            module.ports.values@[j],
                            blocks[j],
                        ));
                        assert(header_name(blocks@[j].text@) == header_name(blocks[k as int].text@));
                        assert(header_fault(blocks@, k as int));
                        assert(first_header_fault(blocks@, k as int));
                        assert forall|i: int| 0 <= i < k implies node_declared(
                            #[trigger] module.nodes.names@[i],
                            module.nodes.values@[i],
                            module.ports.values@[i],
                            blocks@.take(k as int)[i],
                        ) by {
                            assert(blocks@.take(k as int)[i] == blocks[i]);
                        }
                    }
                    return Err(ParseError::DuplicateId { line_number: blocks[k].line_number });
                }
                proof {
                    if header_fault(blocks@, k as int) {
                        let j = choose|j: int|
                            0 <= j < k && header_name((#[trigger] blocks@[j]).text@) == header_name(
                                blocks[k as int].text@,
                            );
                        assert(node_declared(
                            module.nodes.names@[j],
                            module.nodes.values@[j],
                            module.ports.values@[j],
                            blocks[j],
                        ));
                        assert(module.nodes.names@[j]@ == id@);
                        assert(false);
                    }
                    let p = module.ports.position(id@);
                    if p < module.ports.names@.len() {
                        assert(module.nodes.names@[p]@ == module.ports.names@[p]@);
                        assert(false);
                    }
                }
                let kind = node_kind(name.as_str());
                let ports = declare_ports(kind);
                let ghost before = *module;
                module.nodes.insert(id.clone(), None);
                module.ports.insert(id, ports);
                proof {
                    assert forall|j: int| 0 <= j < k + 1 implies node_declared(
                        #[trigger] module.nodes.names@[j],
                        module.nodes.values@[j],
                        module.ports.values@[j],
                        blocks[j],
                    ) by {
                        if j < k {
                            assert(node_declared(
                                before.nodes.names@[j],
                                before.nodes.values@[j],
                                before.ports.values@[j],
                                blocks[j],
                            ));
                        }
                    }
                    assert forall|j: int| 0 <= j < module.nodes.names@.len() implies (
                    #[trigger] module.nodes.names@[j])@ == module.ports.names@[j]@ by {
                        if j < k {
                            assert(before.nodes.names@[j]@ == before.ports.names@[j]@);
                        }
                    }
                    assert forall|j: int| 0 <= j < module.ports.values@.len() implies (
                    #[trigger] module.ports.values@[j]).wf() by {
                        if j < k {
                            assert(before.ports.values@[j].wf());
                        }
                    }
                }
            },
        }
        k += 1;
    }
    Ok(())
}

/// Reads the node that `indent_block` describes into its entry at `index`.
/// A node of unknown type gets a comment on its header and stays without a
/// node; for the others the constructor of the type reads the parameters.
pub fn read_node(module: &mut Module, indent_block: &mut IndentBlock, index: usize)
    requires
        old(module).wf(),
        index < old(module).nodes.names@.len(),
        node_declared(
            old(module).nodes.names@[index as int],
            old(module).nodes.values@[index as int],
            old(module).ports.values@[index as int],
            *old(indent_block),
        ),
    ensures
        final(module).wf(),
        final(module).nodes.names == old(module).nodes.names,
        final(module).ports.names == old(module).ports.names,
        final(module).execution_order == old(module).execution_order,
        signature(final(module).ports) == signature(old(module).ports),
        forall|j: int|
            0 <= j < old(module).nodes.names@.len() && j != index ==> #[trigger] final(module).nodes.values@[j] == old(module).nodes.values@[j] && final(module).ports.values@[j]
                == old(module).ports.values@[j],
        node_built(
            final(module).nodes.names@[index as int],
            final(module).nodes.values@[index as int],
            final(module).ports.values@[index as int],
            signature(old(module).ports),
            *old(indent_block),
        ),
        string_views(final(module).errors@) == string_views(old(module).errors@) + node_faults(
            signature(old(module).ports),
            *old(indent_block),
        ),
        flatten(seq![*final(indent_block)], 0) == node_lines(
            signature(old(module).ports),
            *old(indent_block),
        ),
{
    let ghost known = signature(module.ports);
    let ghost before = *module;
    let (name, id) = parse_node_header(indent_block.text.as_str());
    let kind = node_kind(name.as_str());
    proof {
        assert(seq![*old(indent_block)].drop_last() == Seq::<IndentBlock>::empty());
        assert(flatten(Seq::<IndentBlock>::empty(), 0) == Seq::<Line>::empty());
    }
    match kind {
        NodeKind::Sine => {
            let node = crate::nodes::sine::new(indent_block, module, index);
            module.nodes.values.set(index, Some(Node::Sine(node)));
            proof {
                lemma_signature_stable(before.ports, module.ports, index as int);
                lemma_parameter_lines(
                    old(indent_block).children@,
                    indent_block.children@,
                    kind,
                    known,
                );
                lemma_position_of(before.ports.values@[index as int].inlets.names@, "frequency"@);
                lemma_position_of(before.ports.values@[index as int].outlets.names@, "out"@);
            }
        },
        NodeKind::Out => {
            let node = crate::nodes::out::new(indent_block, module, index);
            module.nodes.values.set(index, Some(Node::Out(node)));
            proof {
                lemma_signature_stable(before.ports, module.ports, index as int);
                lemma_parameter_lines(
                    old(indent_block).children@,
                    indent_block.children@,
                    kind,
                    known,
                );
                lemma_position_of(before.ports.values@[index as int].inlets.names@, "in"@);
            }
        },
        NodeKind::Unknown => {
            indent_block.text.append("  # ERROR: Unknown node");
            let line = indent_block.text.clone();
            proof {
                assert(string_views(module.errors@.push(line)) == string_views(
                    module.errors@,
                ).push(line@));
                assert(string_views(module.errors@).push(line@) == string_views(module.errors@)
                    + seq![line@]);
            }
            module.errors.push(line);
        },
    }
    proof {
        assert(seq![*indent_block].drop_last() == Seq::<IndentBlock>::empty());
        assert(seq![*indent_block].last() == *indent_block);
    }
}

/// Reads the node that `indent_block` describes into the module: enters its
/// id with the ports of its type, and reads the node into that entry. A node
/// of unknown type gets a comment on its header and stays without a node;
/// for the others the constructor of the type reads the parameters. The
/// header has to hold an id that the module does not have yet.
pub fn parse_node(module: &mut Module, indent_block: &mut IndentBlock)
    requires
        old(module).wf(),
        header_name(old(indent_block).text@) matches Some(id) && !old(module).nodes.has(id),
    ensures
        final(module).wf(),
        final(module).nodes.names@.len() == old(module).nodes.names@.len() + 1,
        forall|j: int|
            0 <= j < old(module).nodes.names@.len() ==> {
                &&& (#[trigger] final(module).nodes.names@[j]) == old(module).nodes.names@[j]
                &&& final(module).nodes.values@[j] == old(module).nodes.values@[j]
                &&& final(module).ports.names@[j] == old(module).ports.names@[j]
                &&& final(module).ports.values@[j] == old(module).ports.values@[j]
            },
        final(module).execution_order == old(module).execution_order,
        node_built(
            final(module).nodes.names@.last(),
            final(module).nodes.values@.last(),
            final(module).ports.values@.last(),
            signature(final(module).ports),
            *old(indent_block),
        ),
        string_views(final(module).errors@) == string_views(old(module).errors@) + node_faults(
            signature(final(module).ports),
            *old(indent_block),
        ),
        flatten(seq![*final(indent_block)], 0) == node_lines(
            signature(final(module).ports),
            *old(indent_block),
        ),
{
    let (name, id) = parse_node_header(indent_block.text.as_str());
    let id = match id {
        Some(id) => id,
        None => String::new(),
    };
    let kind = node_kind(name.as_str());
    let ports = declare_ports(kind);
    let ghost before = *module;
    let ghost count = module.nodes.names@.len() as int;
    proof {
        lemma_position_of(module.nodes.names@, id@);
        lemma_position_of(module.ports.names@, id@);
        let p = module.ports.position(id@);
        if p < module.ports.names@.len() {
            assert(module.nodes.names@[p]@ == module.ports.names@[p]@);
        }
    }
    module.nodes.insert(id.clone(), None);
    module.ports.insert(id, ports);
    proof {
        assert forall|j: int| 0 <= j < module.nodes.names@.len() implies (
        #[trigger] module.nodes.names@[j])@ == module.ports.names@[j]@ by {
            if j < count {
                assert(before.nodes.names@[j]@ == before.ports.names@[j]@);
            }
        }
        assert forall|j: int| 0 <= j < module.ports.values@.len() implies (
        #[trigger] module.ports.values@[j]).wf() by {
            if j < count {
                assert(before.ports.values@[j].wf());
            }
        }
    }
    let index = module.nodes.len() - 1;
    read_node(module, indent_block, index);
}

/// Reads every node of the module from its block.
pub fn build_nodes(module: &mut Module, blocks: &mut Vec<IndentBlock>)
    requires
        declared(*old(module), old(blocks)@),
    ensures
        built(*final(module), old(blocks)@),
        flatten(final(blocks)@, 0) == module_lines(signature(final(module).ports), old(blocks)@),
{
    let ghost known = signature(module.ports);
    let ghost forest = blocks@;
    let mut k: usize = 0;
    proof {
        assert(forest.take(0) == Seq::<IndentBlock>::empty());
        assert(blocks@.take(0) == Seq::<IndentBlock>::empty());
    }
    while k < blocks.len()
        invariant
            k <= blocks.len(),
            forest == old(blocks)@,
            blocks.len() == forest.len(),
            module.wf(),
            module.nodes.names@.len() == forest.len(),
            module.execution_order@.len() == 0,
            signature(module.ports) == known,
            forall|j: int| k <= j < forest.len() ==> #[trigger] blocks[j] == forest[j],
            forall|j: int|
                k <= j < forest.len() ==> node_declared(
                    #[trigger] module.nodes.names@[j],
                    module.nodes.values@[j],
                    module.ports.values@[j],
                    forest[j],
                ),
            forall|j: int|
                0 <= j < k ==> node_built(
                    #[trigger] module.nodes.names@[j],
                    module.nodes.values@[j],
                    module.ports.values@[j],
                    known,
                    forest[j],
                ),
            string_views(module.errors@) == module_faults(known, forest.take(k as int)),
            flatten(blocks@.take(k as int), 0) == module_lines(known, forest.take(k as int)),
        decreases blocks.len() - k,
    {
        let ghost before = *module;
        let ghost done = blocks@.take(k as int);
        proof {
            assert(node_declared(
                module.nodes.names@[k as int],
                module.nodes.values@[k as int],
                module.ports.values@[k as int],
                forest[k as int],
            ));
        }
        read_node(module, &mut blocks[k], k);
        proof {
            assert(blocks@.take(k as int) == done);
            assert(forest.take(k + 1).drop_last() == forest.take(k as int));
            assert(forest.take(k + 1).last() == forest[k as int]);
            let block = blocks[k as int];
            assert(blocks@.take(k + 1) == done.push(block));
            crate::parse::lemma_flatten_push(done, block, 0);
            crate::parse::lemma_flatten_push(Seq::<IndentBlock>::empty(), block, 0);
            assert(Seq::<IndentBlock>::empty().push(block) == seq![block]);
            assert(flatten(Seq::<IndentBlock>::empty(), 0) == Seq::<Line>::empty());
            assert forall|j: int| k + 1 <= j < forest.len() implies node_declared(
                #[trigger] module.nodes.names@[j],
                module.nodes.values@[j],
                module.ports.values@[j],
                forest[j],
            ) by {
                assert(node_declared(
                    before.nodes.names@[j],
                    before.nodes.values@[j],
                    before.ports.values@[j],
                    forest[j],
                ));
            }
            assert forall|j: int| 0 <= j < k + 1 implies node_built(
                #[trigger] module.nodes.names@[j],
                module.nodes.values@[j],
                module.ports.values@[j],
                known,
                forest[j],
            ) by {
                if j < k {
                    assert(node_built(
                        before.nodes.names@[j],
                        before.nodes.values@[j],
                        before.ports.values@[j],
                        known,
                        forest[j],
                    ));
                }
            }
        }
        k += 1;
    }
    proof {
        assert(forest.take(forest.len() as int) == forest);
        assert(blocks@.take(blocks.len() as int) == blocks@);
    }
}

/// `module` and `text` are what the module text `raw` describes: the
/// module holds the nodes of the text, and `text` is `raw` with an id on
/// every header and a comment on every line that was not understood.
pub open spec fn describes(raw: Seq<char>, module: Module, text: Seq<char>) -> bool {
    exists|forest: Seq<IndentBlock>| #[trigger] read_as(raw, forest, module, text)
}

/// `forest` is the tree of the lines that `raw` has after id allocation; it
/// has a block, and every node header in it has an id of its own; `module`
/// holds its nodes, and `text` is what it reads with the comments on the
/// lines that were not understood.
pub open spec fn read_as(
    raw: Seq<char>,
    forest: Seq<IndentBlock>,
    module: Module,
    text: Seq<char>,
) -> bool {
    &&& flatten(forest, 0) == document_lines(allocate_ids(raw))
    &&& forest.len() > 0
    &&& forall|k: int| 0 <= k < forest.len() ==> !header_fault(forest, k)
    &&& built(module, forest)
    &&& text == trim(render(module_lines(signature(module.ports), forest)))
}

/// The module text `raw` cannot be read, for the reason that `error` gives.
pub open spec fn rejects(raw: Seq<char>, error: ParseError) -> bool {
    let lines = document_lines(allocate_ids(raw));
    match error {
        ParseError::Empty => lines.len() == 0,
        ParseError::Indentation { line_number } => exists|k: int|
            first_indent_fault(lines, k) && lines[k].number == line_number,
        ParseError::MissingId { line_number } => false,
        ParseError::DuplicateId { line_number } => exists|forest: Seq<IndentBlock>, k: int|
            {
                &&& #[trigger] flatten(forest, 0) == lines
                &&& #[trigger] first_header_fault(forest, k)
                &&& header_name(forest[k].text@) is Some
                &&& forest[k].line_number == line_number
            },
        ParseError::Unconsumed { line_number } => false,
    }
}

/// Parse a module text: give every node an id, read the nodes, and write
/// what is wrong into the lines it is wrong in. Returns the module and the
/// text with ids and comments. Fails on a text without content, on a line
/// that is indented too deep, and on a node header whose id an earlier
/// header has; a header without an id does not occur, since allocation has
/// given it one.
pub fn parse_module_text(raw_text: &str) -> (r: Result<(Module, String), ParseError>)
    ensures
        match r {
            Ok((module, text)) => describes(raw_text@, module, text@),
            Err(error) => rejects(raw_text@, error),
        },
{
    let text = initialize_nodes(raw_text);
    let mut root = match IndentBlock::parse_text(text.as_str()) {
        Ok(root) => root,
        Err(error) => {
            return Err(error);
        },
    };
    let ghost forest = root.children@;
    let mut module = Module::new();
    match declare_nodes(&mut module, &root.children) {
        Ok(()) => {},
        Err(error) => {
            proof {
                let k = choose|k: int| first_header_fault(forest, k);
                assert(first_header_fault(forest, k));
                assert(flatten(forest, 0) == document_lines(allocate_ids(raw_text@)));
                crate::parse_nodes::ids::lemma_allocated_headers(raw_text@, forest, k);
            }
            return Err(error);
        },
    }
    proof {
        assert forall|k: int| 0 <= k < forest.len() implies !header_fault(forest, k) by {
            assert forall|j: int| 0 <= j < forest.len() implies header_name(forest[j].text@)
                == Some((#[trigger] module.nodes.names@[j])@) by {
                assert(node_declared(
                    module.nodes.names@[j],
                    module.nodes.values@[j],
                    module.ports.values@[j],
                    forest[j],
                ));
            }
            lemma_declared_headers(module, forest, k);
        }
    }
    build_nodes(&mut module, &mut root.children);
    let annotated = root.to_string();
    proof {
        assert(flatten(Seq::<IndentBlock>::empty(), 0).len() == 0);
        assert(read_as(raw_text@, forest, module, annotated@));
    }
    Ok((module, annotated))
}

/// In a module that has an entry for every header, every header has an id
/// of its own.
pub proof fn lemma_declared_headers(module: Module, blocks: Seq<IndentBlock>, k: int)
    requires
        module.wf(),
        module.nodes.names@.len() == blocks.len(),
        0 <= k < blocks.len(),
        forall|j: int|
            0 <= j < blocks.len() ==> header_name(blocks[j].text@) == Some(
                (#[trigger] module.nodes.names@[j])@,
            ),
    ensures
        !header_fault(blocks, k),
{
    if header_fault(blocks, k) {
        let j = choose|j: int|
            0 <= j < k && header_name((#[trigger] blocks[j]).text@) == header_name(blocks[k].text@);
        assert(module.nodes.names@[j]@ == module.nodes.names@[k]@);
    }
}

/// The lines of a module are the lines of its nodes, one node after the
/// other.
pub proof fn lemma_module_lines_concat(
    known: Set<(Seq<char>, Seq<char>)>,
    front: Seq<IndentBlock>,
    back: Seq<IndentBlock>,
)
    ensures
        module_lines(known, front + back) == module_lines(known, front) + module_lines(
            known,
            back,
        ),
        module_faults(known, front + back) == module_faults(known, front) + module_faults(
            known,
            back,
        ),
    decreases back.len(),
{
    if back.len() == 0 {
        assert(front + back == front);
    } else {
        lemma_module_lines_concat(known, front, back.drop_last());
        assert((front + back).drop_last() == front + back.drop_last());
        assert((front + back).last() == back.last());
    }
}

/// A node of a type that is not known gets one comment, on its header, and
/// leaves the nodes around it alone: the lines of the module are the lines
/// of the nodes in front of it, its own lines with nothing but the comment
/// added, and the lines of the nodes behind it; and the list of errors has
/// one entry for it, between those of the nodes in front and behind.
pub proof fn lemma_unknown_node_isolated(
    known: Set<(Seq<char>, Seq<char>)>,
    front: Seq<IndentBlock>,
    block: IndentBlock,
    back: Seq<IndentBlock>,
)
    requires
        header_kind(block.text@) == NodeKind::Unknown,
    ensures
        module_lines(known, front + seq![block] + back) == module_lines(known, front) + seq![
            Line {
                number: block.line_number as nat,
                indent: 0,
                text: block.text@ + unknown_node_message(),
            },
        ] + flatten(block.children@, 1) + module_lines(known, back),
        module_faults(known, front + seq![block] + back) == module_faults(known, front) + seq![
            block.text@ + unknown_node_message(),
        ] + module_faults(known, back),
{
    lemma_module_lines_concat(known, front + seq![block], back);
    lemma_module_lines_concat(known, front, seq![block]);
    assert(seq![block].drop_last() == Seq::<IndentBlock>::empty());
    assert(module_lines(known, Seq::<IndentBlock>::empty()) == Seq::<Line>::empty());
    assert(module_faults(known, Seq::<IndentBlock>::empty()) == Seq::<Seq<char>>::empty());
    assert(module_lines(known, seq![block]) == node_lines(known, block));
    assert(module_faults(known, seq![block]) == node_faults(known, block));
}

/// A node of a type that is not known offers no outlet, so that what the
/// other nodes can connect to is the same with and without it.
pub proof fn lemma_unknown_node_offers_nothing(
    module: Module,
    forest: Seq<IndentBlock>,
    k: int,
    outlet: Seq<char>,
)
    requires
        built(module, forest),
        0 <= k < forest.len(),
        header_kind(forest[k].text@) == NodeKind::Unknown,
    ensures
        !signature(module.ports).contains((module.ports.names@[k]@, outlet)),
{
    let names = module.ports.names@;
    crate::table::lemma_position_of_entry(names, k);
    assert(node_built(
        module.nodes.names@[k],
        module.nodes.values@[k],
        module.ports.values@[k],
        signature(module.ports),
        forest[k],
    ));
    lemma_position_of(module.ports.values@[k].outlets.names@, outlet);
}

/// In a module without errors, no line has got a comment.
proof fn lemma_faultless_children(
    kind: NodeKind,
    known: Set<(Seq<char>, Seq<char>)>,
    children: Seq<IndentBlock>,
)
    requires
        faults(kind, known, children).len() == 0,
    ensures
        parameter_lines(kind, known, children) == flatten(children, 1),
    decreases children.len(),
{
    if children.len() > 0 {
        let child = children.last();
        lemma_faultless_children(kind, known, children.drop_last());
        assert(child.text@ + Seq::<char>::empty() == child.text@);
    }
}

proof fn lemma_faultless_module(known: Set<(Seq<char>, Seq<char>)>, forest: Seq<IndentBlock>)
    requires
        module_faults(known, forest).len() == 0,
    ensures
        module_lines(known, forest) == flatten(forest, 0),
    decreases forest.len(),
{
    if forest.len() > 0 {
        let block = forest.last();
        lemma_faultless_module(known, forest.drop_last());
        match header_kind(block.text@) {
            NodeKind::Unknown => {},
            kind => {
                lemma_faultless_children(kind, known, block.children@);
            },
        }
    }
}

/// Reading a module text that is in order and writing it out again gives
/// the same text: where the text is canonical, every node header in it has
/// an id, and reading it finds nothing wrong, the text that comes back is
/// the text that went in.
pub proof fn lemma_valid_module_round_trip(raw: Seq<char>, module: Module, text: Seq<char>)
    requires
        crate::parse::canonical(raw),
        identified(split(raw, '\n')),
        describes(raw, module, text),
        module.errors@.len() == 0,
    ensures
        text == raw,
{
    crate::parse::lemma_round_trip(raw);
    crate::text::lemma_trim_is_trimmed(render(document_lines(raw)));
    crate::text::lemma_trim_end_idempotent(crate::text::trim_start(render(document_lines(raw))));
    lemma_identified_text_unchanged(raw);
    let forest = choose|forest: Seq<IndentBlock>| #[trigger] read_as(raw, forest, module, text);
    assert(string_views(module.errors@).len() == 0);
    lemma_faultless_module(signature(module.ports), forest);
}

/// `longer` is the line `shorter` with something written behind its text,
/// or with nothing.
pub open spec fn extends(longer: Line, shorter: Line) -> bool {
    &&& longer.number == shorter.number
    &&& longer.indent == shorter.indent
    &&& shorter.text.len() <= longer.text.len()
    &&& longer.text.take(shorter.text.len() as int) == shorter.text
}

/// Line by line, `longer` is `shorter` with something written behind.
pub open spec fn all_extend(longer: Seq<Line>, shorter: Seq<Line>) -> bool {
    &&& longer.len() == shorter.len()
    &&& forall|i: int| 0 <= i < shorter.len() ==> extends(#[trigger] longer[i], shorter[i])
}

proof fn lemma_extend_concat(a: Seq<Line>, b: Seq<Line>, c: Seq<Line>, d: Seq<Line>)
    requires
        all_extend(a, b),
        all_extend(c, d),
    ensures
        all_extend(a + c, b + d),
{
    assert forall|i: int| 0 <= i < (b + d).len() implies extends(#[trigger] (a + c)[i], (b + d)[i]) by {
        if i < b.len() {
            assert(extends(a[i], b[i]));
        } else {
            assert(extends(c[i - a.len()], d[i - b.len()]));
        }
    }
}

proof fn lemma_extend_same(lines: Seq<Line>)
    ensures
        all_extend(lines, lines),
{
    assert forall|i: int| 0 <= i < lines.len() implies extends(#[trigger] lines[i], lines[i]) by {
        assert(lines[i].text.take(lines[i].text.len() as int) == lines[i].text);
    }
}

proof fn lemma_parameter_lines_extend(
    kind: NodeKind,
    known: Set<(Seq<char>, Seq<char>)>,
    children: Seq<IndentBlock>,
)
    ensures
        all_extend(parameter_lines(kind, known, children), flatten(children, 1)),
    decreases children.len(),
{
    if children.len() > 0 {
        let child = children.last();
        lemma_parameter_lines_extend(kind, known, children.drop_last());
        let comment = fault_of(reading_of(kind, child.text@, known));
        let written = Line {
            number: child.line_number as nat,
            indent: 1,
            text: child.text@ + comment,
        };
        assert((child.text@ + comment).take(child.text@.len() as int) == child.text@);
        assert(extends(written, child.line(1)));
        assert(seq![written][0] == written);
        assert(all_extend(seq![written], seq![child.line(1)]));
        lemma_extend_same(flatten(child.children@, 2));
        lemma_extend_concat(
            parameter_lines(kind, known, children.drop_last()),
            flatten(children.drop_last(), 1),
            seq![written],
            seq![child.line(1)],
        );
        lemma_extend_concat(
            parameter_lines(kind, known, children.drop_last()) + seq![written],
            flatten(children.drop_last(), 1) + seq![child.line(1)],
            flatten(child.children@, 2),
            flatten(child.children@, 2),
        );
    } else {
        lemma_extend_same(Seq::<Line>::empty());
    }
}

/// Reading a module changes its text only by writing comments behind lines:
/// line by line, what is written out is what was read, with or without a
/// comment behind it.
pub proof fn lemma_annotations_only_append(
    known: Set<(Seq<char>, Seq<char>)>,
    forest: Seq<IndentBlock>,
)
    ensures
        all_extend(module_lines(known, forest), flatten(forest, 0)),
    decreases forest.len(),
{
    if forest.len() > 0 {
        let block = forest.last();
        lemma_annotations_only_append(known, forest.drop_last());
        let header = seq![block.line(0)];
        match header_kind(block.text@) {
            NodeKind::Unknown => {
                let written = Line {
                    number: block.line_number as nat,
                    indent: 0,
                    text: block.text@ + unknown_node_message(),
                };
                assert((block.text@ + unknown_node_message()).take(block.text@.len() as int)
                    == block.text@);
                assert(extends(written, block.line(0)));
                assert(seq![written][0] == written);
                assert(all_extend(seq![written], header));
                lemma_extend_same(flatten(block.children@, 1));
                lemma_extend_concat(
                    seq![written],
                    header,
                    flatten(block.children@, 1),
                    flatten(block.children@, 1),
                );
            },
            kind => {
                lemma_extend_same(header);
                lemma_parameter_lines_extend(kind, known, block.children@);
                lemma_extend_concat(
                    header,
                    header,
                    parameter_lines(kind, known, block.children@),
                    flatten(block.children@, 1),
                );
            },
        }
        lemma_extend_concat(
            module_lines(known, forest.drop_last()),
            flatten(forest.drop_last(), 0),
            node_lines(known, block),
            header + flatten(block.children@, 1),
        );
        assert(flatten(forest, 0) == flatten(forest.drop_last(), 0) + (header + flatten(
            block.children@,
            1,
        )));
    } else {
        lemma_extend_same(Seq::<Line>::empty());
    }
}

} // verus!
