//! What a module text describes is settled by the text: there is one tree of
//! blocks for its lines, and with it one module and one annotated text.

use vstd::prelude::*;
use crate::module::Module;
use crate::nodes::common::{signature, NodeKind, Ports};
use crate::nodes::{chosen_source, chosen_value, faults, Node};
use crate::parse::{flatten, IndentBlock, Line};
use crate::parse_nodes::{
    built, describes, header_kind, header_name, module_faults, module_lines, node_built,
    node_faults, node_lines, parameter_lines,
};
use crate::table::{lemma_position_of, lemma_position_of_entry};
use crate::text::string_views;

verus! {

/// Every line of blocks that sit at `depth` is indented to `depth` at least.
pub proof fn lemma_flatten_indents(blocks: Seq<IndentBlock>, depth: nat)
    ensures
        forall|i: int|
            0 <= i < flatten(blocks, depth).len() ==> (#[trigger] flatten(blocks, depth)[i]).indent
                >= depth,
    decreases blocks,
{
    if blocks.len() > 0 {
        let front = flatten(blocks.drop_last(), depth);
        let nested = flatten(blocks.last().children@, depth + 1);
        lemma_flatten_indents(blocks.drop_last(), depth);
        lemma_flatten_indents(blocks.last().children@, depth + 1);
        let all = flatten(blocks, depth);
        assert forall|i: int| 0 <= i < all.len() implies (#[trigger] all[i]).indent >= depth by {
            if i < front.len() {
                assert(all[i] == front[i]);
            } else if i == front.len() {
                assert(all[i] == blocks.last().line(depth));
            } else {
                assert(all[i] == nested[i - front.len() - 1]);
            }
        }
    }
}

/// Blocks with the same lines agree in their last block: it stands for the
/// same line, with the same lines nested in it, behind blocks with the same
/// lines.
pub proof fn lemma_flatten_split(a: Seq<IndentBlock>, b: Seq<IndentBlock>, depth: nat)
    requires
        flatten(a, depth) == flatten(b, depth),
        a.len() > 0,
    ensures
        b.len() > 0,
        flatten(a.drop_last(), depth) == flatten(b.drop_last(), depth),
        a.last().line(depth) == b.last().line(depth),
        flatten(a.last().children@, depth + 1) == flatten(b.last().children@, depth + 1),
{
    let all = flatten(a, depth);
    let front_a = flatten(a.drop_last(), depth);
    let nested_a = flatten(a.last().children@, depth + 1);
    assert(all[front_a.len() as int] == a.last().line(depth));
    if b.len() == 0 {
        assert(flatten(b, depth).len() == 0);
    } else {
        let front_b = flatten(b.drop_last(), depth);
        let nested_b = flatten(b.last().children@, depth + 1);
        lemma_flatten_indents(a.last().children@, depth + 1);
        lemma_flatten_indents(b.last().children@, depth + 1);
        let pa = front_a.len() as int;
        let pb = front_b.len() as int;
        let other = flatten(b, depth);
        assert(all == front_a + seq![a.last().line(depth)] + nested_a);
        assert(other == front_b + seq![b.last().line(depth)] + nested_b);
        assert(all.len() == pa + 1 + nested_a.len());
        assert(other.len() == pb + 1 + nested_b.len());
        assert(other[pb] == b.last().line(depth));
        if pa < pb {
            assert(all[pb] == nested_a[pb - pa - 1]);
            assert(nested_a[pb - pa - 1].indent >= depth + 1);
            assert(other[pb].indent == depth);
        } else if pb < pa {
            assert(other[pa] == nested_b[pa - pb - 1]);
            assert(nested_b[pa - pb - 1].indent >= depth + 1);
            assert(all[pa].indent == depth);
        }
        assert(pa == pb);
        assert(front_a == all.take(pa));
        assert(front_b == all.take(pa));
        assert(nested_a == all.skip(pa + 1));
        assert(nested_b == all.skip(pa + 1));
    }
}

/// Blocks without lines are no blocks.
pub proof fn lemma_flatten_empty(a: Seq<IndentBlock>, b: Seq<IndentBlock>, depth: nat)
    requires
        flatten(a, depth) == flatten(b, depth),
    ensures
        a.len() == 0 <==> b.len() == 0,
{
    if a.len() > 0 {
        lemma_flatten_split(a, b, depth);
    }
    if b.len() > 0 {
        lemma_flatten_split(b, a, depth);
    }
}

/// Parameter lines with the same lines are read in the same way.
pub proof fn lemma_children_same(
    kind: NodeKind,
    known: Set<(Seq<char>, Seq<char>)>,
    a: Seq<IndentBlock>,
    b: Seq<IndentBlock>,
)
    requires
        flatten(a, 1) == flatten(b, 1),
    ensures
        parameter_lines(kind, known, a) == parameter_lines(kind, known, b),
        chosen_value(kind, known, a) == chosen_value(kind, known, b),
        chosen_source(kind, known, a) == chosen_source(kind, known, b),
        faults(kind, known, a) == faults(kind, known, b),
    decreases a.len(),
{
    lemma_flatten_empty(a, b, 1);
    if a.len() > 0 {
        lemma_flatten_split(a, b, 1);
        lemma_children_same(kind, known, a.drop_last(), b.drop_last());
        assert(a.last().line(1).text == b.last().line(1).text);
        assert(a.last().line(1).number == b.last().line(1).number);
    }
}

/// Two blocks stand for the same line and have the same lines nested in
/// them.
pub open spec fn same_block(x: IndentBlock, y: IndentBlock) -> bool {
    &&& x.line(0) == y.line(0)
    &&& flatten(x.children@, 1) == flatten(y.children@, 1)
}

/// Nodes that are written in the same way are read in the same way.
pub proof fn lemma_node_same(known: Set<(Seq<char>, Seq<char>)>, x: IndentBlock, y: IndentBlock)
    requires
        same_block(x, y),
    ensures
        x.text@ == y.text@,
        x.line_number == y.line_number,
        node_lines(known, x) == node_lines(known, y),
        node_faults(known, x) == node_faults(known, y),
        forall|name: String, node: Option<Node>, ports: Ports| #[trigger]
            node_built(name, node, ports, known, x) == node_built(name, node, ports, known, y),
{
    assert(x.line(0).text == y.line(0).text);
    assert(x.line(0).number == y.line(0).number);
    lemma_children_same(header_kind(x.text@), known, x.children@, y.children@);
}

/// The two forests are written in the same way, block by block.
pub open spec fn same_blocks(a: Seq<IndentBlock>, b: Seq<IndentBlock>) -> bool {
    &&& a.len() == b.len()
    &&& forall|k: int| 0 <= k < a.len() ==> same_block(#[trigger] a[k], b[k])
}

/// Forests with the same lines are written in the same way, and are read in
/// the same way.
pub proof fn lemma_forest_same(
    known: Set<(Seq<char>, Seq<char>)>,
    a: Seq<IndentBlock>,
    b: Seq<IndentBlock>,
)
    requires
        flatten(a, 0) == flatten(b, 0),
    ensures
        same_blocks(a, b),
        module_lines(known, a) == module_lines(known, b),
        module_faults(known, a) == module_faults(known, b),
    decreases a.len(),
{
    lemma_flatten_empty(a, b, 0);
    if a.len() > 0 {
        lemma_flatten_split(a, b, 0);
        lemma_forest_same(known, a.drop_last(), b.drop_last());
        lemma_node_same(known, a.last(), b.last());
        assert forall|k: int| 0 <= k < a.len() implies same_block(#[trigger] a[k], b[k]) by {
            if k < a.len() - 1 {
                assert(a.drop_last()[k] == a[k]);
                assert(b.drop_last()[k] == b[k]);
                assert(same_block(a.drop_last()[k], b.drop_last()[k]));
            }
        }
    }
}

/// The outlets that the nodes of a forest offer: the outlet `out` of every
/// generator.
pub open spec fn offered(forest: Seq<IndentBlock>) -> Set<(Seq<char>, Seq<char>)> {
    Set::new(
        |pair: (Seq<char>, Seq<char>)|
            pair.1 == "out"@ && exists|k: int|
                0 <= k < forest.len() && header_name((#[trigger] forest[k]).text@) == Some(pair.0)
                    && header_kind(forest[k].text@) == NodeKind::Sine,
    )
}

/// What a module offers is what the nodes of its text offer.
pub proof fn lemma_signature_of_built(module: Module, forest: Seq<IndentBlock>)
    requires
        built(module, forest),
    ensures
        signature(module.ports) == offered(forest),
{
    let known = signature(module.ports);
    let names = module.ports.names@;
    assert forall|pair: (Seq<char>, Seq<char>)| known.contains(pair) == offered(forest).contains(
        pair,
    ) by {
        lemma_position_of(names, pair.0);
        if known.contains(pair) {
            let k = module.ports.position(pair.0);
            let ports = module.ports.values@[k];
            assert(node_built(
                module.nodes.names@[k],
                module.nodes.values@[k],
                ports,
                known,
                forest[k],
            ));
            assert(module.nodes.names@[k]@ == names[k]@);
            lemma_position_of(ports.outlets.names@, pair.1);
            lemma_position_of(ports.outlets.names@, "out"@);
            assert(header_kind(forest[k].text@) == NodeKind::Sine);
            assert(pair.1 == "out"@);
        }
        if offered(forest).contains(pair) {
            let k = choose|k: int|
                0 <= k < forest.len() && header_name((#[trigger] forest[k]).text@) == Some(pair.0)
                    && header_kind(forest[k].text@) == NodeKind::Sine;
            let ports = module.ports.values@[k];
            assert(node_built(
                module.nodes.names@[k],
                module.nodes.values@[k],
                ports,
                known,
                forest[k],
            ));
            assert(module.nodes.names@[k]@ == names[k]@);
            lemma_position_of_entry(names, k);
            lemma_position_of(ports.outlets.names@, "out"@);
        }
    }
    assert(known =~= offered(forest));
}

/// Forests that are written in the same way offer the same outlets.
pub proof fn lemma_offered_same(a: Seq<IndentBlock>, b: Seq<IndentBlock>)
    requires
        same_blocks(a, b),
    ensures
        offered(a) == offered(b),
{
    assert forall|pair: (Seq<char>, Seq<char>)| offered(a).contains(pair) == offered(b).contains(
        pair,
    ) by {
        if offered(a).contains(pair) {
            let k = choose|k: int|
                0 <= k < a.len() && header_name((#[trigger] a[k]).text@) == Some(pair.0)
                    && header_kind(a[k].text@) == NodeKind::Sine;
            assert(same_block(a[k], b[k]));
            assert(a[k].line(0).text == b[k].line(0).text);
        }
        if offered(b).contains(pair) {
            let k = choose|k: int|
                0 <= k < b.len() && header_name((#[trigger] b[k]).text@) == Some(pair.0)
                    && header_kind(b[k].text@) == NodeKind::Sine;
            assert(same_block(a[k], b[k]));
            assert(a[k].line(0).text == b[k].line(0).text);
        }
    }
    assert(offered(a) =~= offered(b));
}

/// A module text has one reading: whatever is described by the same text
/// has the same annotated text, the same list of errors, and the same node
/// ids in the same order.
pub proof fn lemma_description_unique(
    raw: Seq<char>,
    first: Module,
    first_text: Seq<char>,
    second: Module,
    second_text: Seq<char>,
)
    requires
        describes(raw, first, first_text),
        describes(raw, second, second_text),
    ensures
        first_text == second_text,
        string_views(first.errors@) == string_views(second.errors@),
        string_views(first.nodes.names@) == string_views(second.nodes.names@),
        signature(first.ports) == signature(second.ports),
{
    let a = choose|forest: Seq<IndentBlock>|
        #[trigger] crate::parse_nodes::read_as(raw, forest, first, first_text);
    let b = choose|forest: Seq<IndentBlock>|
        #[trigger] crate::parse_nodes::read_as(raw, forest, second, second_text);
    lemma_signature_of_built(first, a);
    lemma_signature_of_built(second, b);
    let known = signature(first.ports);
    lemma_forest_same(known, a, b);
    lemma_offered_same(a, b);
    let one = string_views(first.nodes.names@);
    let two = string_views(second.nodes.names@);
    assert forall|k: int| 0 <= k < one.len() implies one[k] == two[k] by {
        assert(node_built(
            first.nodes.names@[k],
            first.nodes.values@[k],
            first.ports.values@[k],
            known,
            a[k],
        ));
        assert(node_built(
            second.nodes.names@[k],
            second.nodes.values@[k],
            second.ports.values@[k],
            known,
            b[k],
        ));
        assert(same_block(a[k], b[k]));
        assert(a[k].line(0).text == b[k].line(0).text);
    }
    assert(one =~= two);
}

/// A node of unknown type offers nothing: a forest offers the same outlets
/// with it and without it.
pub proof fn lemma_offered_without(
    front: Seq<IndentBlock>,
    block: IndentBlock,
    back: Seq<IndentBlock>,
)
    requires
        header_kind(block.text@) == NodeKind::Unknown,
    ensures
        offered(front + seq![block] + back) == offered(front + back),
{
    let with = front + seq![block] + back;
    let without = front + back;
    assert forall|pair: (Seq<char>, Seq<char>)| offered(with).contains(pair) == offered(
        without,
    ).contains(pair) by {
        if offered(with).contains(pair) {
            let k = choose|k: int|
                0 <= k < with.len() && header_name((#[trigger] with[k]).text@) == Some(pair.0)
                    && header_kind(with[k].text@) == NodeKind::Sine;
            if k < front.len() {
                assert(without[k] == with[k]);
            } else {
                assert(k > front.len());
                assert(without[k - 1] == with[k]);
            }
        }
        if offered(without).contains(pair) {
            let k = choose|k: int|
                0 <= k < without.len() && header_name((#[trigger] without[k]).text@) == Some(
                    pair.0,
                ) && header_kind(without[k].text@) == NodeKind::Sine;
            if k < front.len() {
                assert(with[k] == without[k]);
            } else {
                assert(with[k + 1] == without[k]);
            }
        }
    }
    assert(offered(with) =~= offered(without));
}

/// A node of unknown type does not touch the nodes around it. Take a module
/// text with such a node between others, and the text without it. Both
/// offer the same outlets. The lines that come back for the text with the
/// node are the lines that come back without it, and between them the lines
/// of the node with the one comment on its header; the same holds of the
/// errors. And every other node has, in the module with the node, the entry
/// that describes it in the module without.
pub proof fn lemma_unknown_node_between(
    without: Module,
    with: Module,
    front: Seq<IndentBlock>,
    block: IndentBlock,
    back: Seq<IndentBlock>,
)
    requires
        built(without, front + back),
        built(with, front + seq![block] + back),
        header_kind(block.text@) == NodeKind::Unknown,
    ensures
        signature(with.ports) == signature(without.ports),
        module_lines(signature(without.ports), front + back) == module_lines(
            signature(without.ports),
            front,
        ) + module_lines(signature(without.ports), back),
        module_lines(signature(with.ports), front + seq![block] + back) == module_lines(
            signature(without.ports),
            front,
        ) + seq![
            Line {
                number: block.line_number as nat,
                indent: 0,
                text: block.text@ + crate::parse_nodes::unknown_node_message(),
            },
        ] + flatten(block.children@, 1) + module_lines(signature(without.ports), back),
        string_views(with.errors@) == module_faults(signature(without.ports), front) + seq![
            block.text@ + crate::parse_nodes::unknown_node_message(),
        ] + module_faults(signature(without.ports), back),
        string_views(without.errors@) == module_faults(signature(without.ports), front)
            + module_faults(signature(without.ports), back),
        with.nodes.values@[front.len() as int] is None,
        forall|k: int|
            0 <= k < front.len() ==> node_built(
                #[trigger] with.nodes.names@[k],
                with.nodes.values@[k],
                with.ports.values@[k],
                signature(without.ports),
                front[k],
            ) && node_built(
                without.nodes.names@[k],
                without.nodes.values@[k],
                without.ports.values@[k],
                signature(without.ports),
                front[k],
            ),
        forall|k: int|
            0 <= k < back.len() ==> node_built(
                #[trigger] with.nodes.names@[front.len() + 1 + k],
                with.nodes.values@[front.len() + 1 + k],
                with.ports.values@[front.len() + 1 + k],
                signature(without.ports),
                back[k],
            ) && node_built(
                without.nodes.names@[front.len() + k],
                without.nodes.values@[front.len() + k],
                without.ports.values@[front.len() + k],
                signature(without.ports),
                back[k],
            ),
{
    let all = front + seq![block] + back;
    let rest = front + back;
    let known = signature(without.ports);
    lemma_signature_of_built(without, rest);
    lemma_signature_of_built(with, all);
    lemma_offered_without(front, block, back);
    crate::parse_nodes::lemma_unknown_node_isolated(known, front, block, back);
    crate::parse_nodes::lemma_module_lines_concat(known, front, back);
    let at = front.len() as int;
    assert(all[at] == block);
    assert(node_built(
        with.nodes.names@[at],
        with.nodes.values@[at],
        with.ports.values@[at],
        known,
        all[at],
    ));
    assert forall|k: int| 0 <= k < front.len() implies node_built(
        #[trigger] with.nodes.names@[k],
        with.nodes.values@[k],
        with.ports.values@[k],
        known,
        front[k],
    ) && node_built(
        without.nodes.names@[k],
        without.nodes.values@[k],
        without.ports.values@[k],
        known,
        front[k],
    ) by {
        assert(all[k] == front[k]);
        assert(rest[k] == front[k]);
        assert(node_built(
            with.nodes.names@[k],
            with.nodes.values@[k],
            with.ports.values@[k],
            known,
            all[k],
        ));
        assert(node_built(
            without.nodes.names@[k],
            without.nodes.values@[k],
            without.ports.values@[k],
            known,
            rest[k],
        ));
    }
    assert forall|k: int| 0 <= k < back.len() implies node_built(
        #[trigger] with.nodes.names@[front.len() + 1 + k],
        with.nodes.values@[front.len() + 1 + k],
        with.ports.values@[front.len() + 1 + k],
        known,
        back[k],
    ) && node_built(
        without.nodes.names@[front.len() + k],
        without.nodes.values@[front.len() + k],
        without.ports.values@[front.len() + k],
        known,
        back[k],
    ) by {
        let i = front.len() + 1 + k;
        let j = front.len() + k;
        assert(all[i] == back[k]);
        assert(rest[j] == back[k]);
        assert(node_built(
            with.nodes.names@[i],
            with.nodes.values@[i],
            with.ports.values@[i],
            known,
            all[i],
        ));
        assert(node_built(
            without.nodes.names@[j],
            without.nodes.values@[j],
            without.ports.values@[j],
            known,
            rest[j],
        ));
    }
}

} // verus!
