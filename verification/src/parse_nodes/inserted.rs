//! A node of unknown type in a text: what reading the text gives with the
//! lines of the node and without them.

use vstd::prelude::*;
use crate::module::Module;
use crate::nodes::common::{built_ports, inlet_name, signature, NodeKind, Ports};
use crate::nodes::{chosen_source, chosen_value, faults, Node};
use crate::parse::{
    document_lines, flatten, leading_tabs, lemma_flatten_push, logical_line, logical_lines, render,
    render_line, strip_comment, IndentBlock, Line,
};
use crate::parse_nodes::ids::{allocate_ids, identified, lemma_identified_text_unchanged};
use crate::parse_nodes::lines::content;
use crate::parse_nodes::unique::{
    lemma_flatten_indents, lemma_offered_without, lemma_signature_of_built, offered,
};
use crate::parse_nodes::{
    built, describes, header_kind, header_name, lemma_module_lines_concat,
    lemma_unknown_node_isolated, module_faults, module_lines, node_built, node_faults, node_lines,
    parameter_lines, read_as, unknown_node_message,
};
use crate::table::lemma_position_of;
use crate::text::{first_index, is_blank, join, lemma_split_join, string_views, trim, trim_end};

verus! {

/// Indentation and text of lines one behind the other are those of the
/// first lines and then those of the second.
pub proof fn lemma_content_concat(x: Seq<Line>, y: Seq<Line>)
    ensures
        content(x + y) == content(x) + content(y),
{
    assert(content(x + y) =~= content(x) + content(y));
}

/// Lines are written out by their indentation and their text alone.
pub proof fn lemma_render_by_content(x: Seq<Line>, y: Seq<Line>)
    requires
        content(x) == content(y),
    ensures
        render(x) == render(y),
    decreases x.len(),
{
    assert(content(x).len() == x.len());
    assert(content(y).len() == y.len());
    if x.len() > 0 {
        let last = x.len() - 1;
        assert(content(x)[last] == content(y)[last]);
        assert(content(x.drop_last()) =~= content(x).drop_last());
        assert(content(y.drop_last()) =~= content(y).drop_last());
        lemma_render_by_content(x.drop_last(), y.drop_last());
        assert(render_line(x.last()) == render_line(y.last()));
    }
}

/// The logical lines of raw lines one behind the other are, but for their
/// numbers, those of the first and then those of the second.
pub proof fn lemma_logical_concat(x: Seq<Seq<char>>, y: Seq<Seq<char>>)
    ensures
        content(logical_lines(x + y)) == content(logical_lines(x)) + content(logical_lines(y)),
    decreases y.len(),
{
    if y.len() == 0 {
        assert(x + y == x);
        assert(content(logical_lines(y)).len() == 0);
        assert(content(logical_lines(x)) + content(logical_lines(y)) =~= content(
            logical_lines(x),
        ));
    } else {
        let front = y.drop_last();
        let raw = y.last();
        lemma_logical_concat(x, front);
        assert((x + y).drop_last() == x + front);
        assert((x + y).last() == raw);
        match logical_line(raw, 0) {
            Some(line) => {
                let all = logical_lines(x + y);
                let part = logical_lines(y);
                assert(content(all) =~= content(logical_lines(x + front)).push(
                    (line.indent, line.text),
                ));
                assert(content(part) =~= content(logical_lines(front)).push(
                    (line.indent, line.text),
                ));
                assert(content(all) =~= content(logical_lines(x)) + content(part));
            },
            None => {},
        }
    }
}

/// Forests one behind the other have the lines of the first and then those
/// of the second.
pub proof fn lemma_flatten_concat(x: Seq<IndentBlock>, y: Seq<IndentBlock>, depth: nat)
    ensures
        flatten(x + y, depth) == flatten(x, depth) + flatten(y, depth),
    decreases y.len(),
{
    if y.len() == 0 {
        assert(x + y == x);
    } else {
        lemma_flatten_concat(x, y.drop_last(), depth);
        assert((x + y).drop_last() == x + y.drop_last());
        assert((x + y).last() == y.last());
    }
}

/// Forests whose lines have the same indentation and text agree in their
/// last block: it has the same text, with lines of the same indentation and
/// text nested in it, behind blocks of which the same holds.
pub proof fn lemma_split_by_content(a: Seq<IndentBlock>, b: Seq<IndentBlock>, depth: nat)
    requires
        content(flatten(a, depth)) == content(flatten(b, depth)),
        a.len() > 0,
    ensures
        b.len() > 0,
        content(flatten(a.drop_last(), depth)) == content(flatten(b.drop_last(), depth)),
        a.last().text@ == b.last().text@,
        content(flatten(a.last().children@, depth + 1)) == content(
            flatten(b.last().children@, depth + 1),
        ),
{
    let all = flatten(a, depth);
    let other = flatten(b, depth);
    let front_a = flatten(a.drop_last(), depth);
    let nested_a = flatten(a.last().children@, depth + 1);
    assert(all == front_a + seq![a.last().line(depth)] + nested_a);
    assert(content(all).len() == content(other).len());
    if b.len() == 0 {
        assert(other.len() == 0);
    } else {
        let front_b = flatten(b.drop_last(), depth);
        let nested_b = flatten(b.last().children@, depth + 1);
        lemma_flatten_indents(a.last().children@, depth + 1);
        lemma_flatten_indents(b.last().children@, depth + 1);
        let pa = front_a.len() as int;
        let pb = front_b.len() as int;
        assert(other == front_b + seq![b.last().line(depth)] + nested_b);
        assert(all.len() == pa + 1 + nested_a.len());
        assert(other.len() == pb + 1 + nested_b.len());
        assert(all[pa] == a.last().line(depth));
        assert(other[pb] == b.last().line(depth));
        if pa < pb {
            assert(all[pb] == nested_a[pb - pa - 1]);
            assert(nested_a[pb - pa - 1].indent >= depth + 1);
            assert(content(all)[pb] == content(other)[pb]);
        } else if pb < pa {
            assert(other[pa] == nested_b[pa - pb - 1]);
            assert(nested_b[pa - pb - 1].indent >= depth + 1);
            assert(content(all)[pa] == content(other)[pa]);
        }
        assert(pa == pb);
        assert(content(all)[pa] == content(other)[pa]);
        assert(content(front_a) =~= content(all).take(pa));
        assert(content(front_b) =~= content(other).take(pa));
        assert(content(nested_a) =~= content(all).skip(pa + 1));
        assert(content(nested_b) =~= content(other).skip(pa + 1));
    }
}

/// Parameter lines of the same indentation and text are read in the same
/// way.
pub proof fn lemma_children_by_content(
    kind: NodeKind,
    known: Set<(Seq<char>, Seq<char>)>,
    a: Seq<IndentBlock>,
    b: Seq<IndentBlock>,
)
    requires
        content(flatten(a, 1)) == content(flatten(b, 1)),
    ensures
        content(parameter_lines(kind, known, a)) == content(parameter_lines(kind, known, b)),
        chosen_value(kind, known, a) == chosen_value(kind, known, b),
        chosen_source(kind, known, a) == chosen_source(kind, known, b),
        faults(kind, known, a) == faults(kind, known, b),
    decreases a.len(),
{
    if a.len() > 0 {
        lemma_split_by_content(a, b, 1);
        lemma_children_by_content(kind, known, a.drop_last(), b.drop_last());
        let x = parameter_lines(kind, known, a);
        let y = parameter_lines(kind, known, b);
        assert(content(x) =~= content(parameter_lines(kind, known, a.drop_last())) + seq![
            (1nat, x[parameter_lines(kind, known, a.drop_last()).len() as int].text),
        ] + content(flatten(a.last().children@, 2)));
        assert(content(y) =~= content(parameter_lines(kind, known, b.drop_last())) + seq![
            (1nat, y[parameter_lines(kind, known, b.drop_last()).len() as int].text),
        ] + content(flatten(b.last().children@, 2)));
        assert(content(parameter_lines(kind, known, a.drop_last())).len() == content(
            parameter_lines(kind, known, b.drop_last()),
        ).len());
    } else {
        if b.len() > 0 {
            lemma_split_by_content(b, a, 1);
        }
    }
}

/// The two forests are written in the same way, block by block: the blocks
/// have the same text, and the lines nested in them have the same
/// indentation and text.
pub open spec fn same_writing(a: Seq<IndentBlock>, b: Seq<IndentBlock>) -> bool {
    &&& a.len() == b.len()
    &&& forall|k: int|
        0 <= k < a.len() ==> (#[trigger] a[k]).text@ == b[k].text@ && content(
            flatten(a[k].children@, 1),
        ) == content(flatten(b[k].children@, 1))
}

/// Nodes that are written in the same way are read in the same way.
pub proof fn lemma_node_by_content(known: Set<(Seq<char>, Seq<char>)>, x: IndentBlock, y: IndentBlock)
    requires
        x.text@ == y.text@,
        content(flatten(x.children@, 1)) == content(flatten(y.children@, 1)),
    ensures
        content(node_lines(known, x)) == content(node_lines(known, y)),
        node_faults(known, x) == node_faults(known, y),
        forall|name: String, node: Option<Node>, ports: Ports| #[trigger]
            node_built(name, node, ports, known, x) == node_built(name, node, ports, known, y),
{
    let kind = header_kind(x.text@);
    lemma_children_by_content(kind, known, x.children@, y.children@);
    match kind {
        NodeKind::Unknown => {
            assert(content(node_lines(known, x)) =~= seq![
                (0nat, x.text@ + unknown_node_message()),
            ] + content(flatten(x.children@, 1)));
            assert(content(node_lines(known, y)) =~= seq![
                (0nat, y.text@ + unknown_node_message()),
            ] + content(flatten(y.children@, 1)));
        },
        _ => {
            assert(content(node_lines(known, x)) =~= seq![(0nat, x.text@)] + content(
                parameter_lines(kind, known, x.children@),
            ));
            assert(content(node_lines(known, y)) =~= seq![(0nat, y.text@)] + content(
                parameter_lines(kind, known, y.children@),
            ));
        },
    }
}

/// Forests whose lines have the same indentation and text are written in
/// the same way, and are read in the same way.
pub proof fn lemma_forest_by_content(
    known: Set<(Seq<char>, Seq<char>)>,
    a: Seq<IndentBlock>,
    b: Seq<IndentBlock>,
)
    requires
        content(flatten(a, 0)) == content(flatten(b, 0)),
    ensures
        same_writing(a, b),
        content(module_lines(known, a)) == content(module_lines(known, b)),
        module_faults(known, a) == module_faults(known, b),
    decreases a.len(),
{
    if a.len() > 0 {
        lemma_split_by_content(a, b, 0);
        lemma_forest_by_content(known, a.drop_last(), b.drop_last());
        lemma_node_by_content(known, a.last(), b.last());
        lemma_content_concat(module_lines(known, a.drop_last()), node_lines(known, a.last()));
        lemma_content_concat(module_lines(known, b.drop_last()), node_lines(known, b.last()));
        assert forall|k: int| 0 <= k < a.len() implies (#[trigger] a[k]).text@ == b[k].text@
            && content(flatten(a[k].children@, 1)) == content(flatten(b[k].children@, 1)) by {
            if k < a.len() - 1 {
                assert(a.drop_last()[k] == a[k]);
                assert(b.drop_last()[k] == b[k]);
            }
        }
    } else {
        if b.len() > 0 {
            lemma_split_by_content(b, a, 0);
        }
    }
}

/// Where the lines of a forest are lines, then a line that is not indented,
/// then indented lines, and then nothing or lines that start with one that
/// is not indented, the forest has a block for that line: the lines in front
/// are those of the blocks in front of it, the indented lines are nested in
/// it, and the lines behind are those of the blocks behind it.
pub proof fn lemma_find_block(
    forest: Seq<IndentBlock>,
    front: Seq<(nat, Seq<char>)>,
    header: Seq<char>,
    nested: Seq<(nat, Seq<char>)>,
    back: Seq<(nat, Seq<char>)>,
) -> (k: int)
    requires
        content(flatten(forest, 0)) == front + seq![(0nat, header)] + nested + back,
        forall|i: int| 0 <= i < nested.len() ==> (#[trigger] nested[i]).0 >= 1,
        back.len() > 0 ==> back[0].0 == 0,
    ensures
        0 <= k < forest.len(),
        forest[k].text@ == header,
        content(flatten(forest.take(k), 0)) == front,
        content(flatten(forest[k].children@, 1)) == nested,
        content(flatten(forest.skip(k + 1), 0)) == back,
    decreases forest.len(),
{
    let all = content(flatten(forest, 0));
    let at = front.len() as int;
    assert(all.len() == front.len() + 1 + nested.len() + back.len());
    assert(all[at] == (0nat, header));
    assert(forest.len() > 0) by {
        if forest.len() == 0 {
            assert(flatten(forest, 0).len() == 0);
        }
    }
    let rest = forest.drop_last();
    let last = forest.last();
    let lines_rest = flatten(rest, 0);
    let lines_nested = flatten(last.children@, 1);
    lemma_flatten_indents(last.children@, 1);
    let p = lines_rest.len() as int;
    assert(flatten(forest, 0) == lines_rest + seq![last.line(0)] + lines_nested);
    assert(all.len() == p + 1 + lines_nested.len());
    assert(all[p] == (0nat, last.text@));
    assert forall|i: int| p < i < all.len() implies (#[trigger] all[i]).0 >= 1 by {
        assert(flatten(forest, 0)[i] == lines_nested[i - p - 1]);
    }
    assert forall|i: int| at < i <= at + nested.len() implies (#[trigger] all[i]).0 >= 1 by {
        assert(all[i] == nested[i - at - 1]);
    }
    if back.len() == 0 {
        if p < at {
            assert(all[at].0 >= 1);
        } else if at < p {
            assert(all[p].0 >= 1);
        }
        assert(p == at);
        assert(content(lines_rest) =~= all.take(p));
        assert(all.take(p) =~= front);
        assert(content(lines_nested) =~= all.skip(p + 1));
        assert(all.skip(p + 1) =~= nested);
        assert(forest.take(forest.len() - 1) == rest);
        assert(forest.skip(forest.len() as int) == Seq::<IndentBlock>::empty());
        assert(content(flatten(Seq::<IndentBlock>::empty(), 0)) =~= back);
        forest.len() - 1
    } else {
        let start = at + 1 + nested.len();
        assert(all[start] == back[0]);
        if p < start {
            assert(all[start].0 >= 1);
        }
        assert(p >= start);
        let kept = back.take(p - start);
        assert(content(lines_rest) =~= all.take(p));
        assert(all.take(p) =~= front + seq![(0nat, header)] + nested + kept);
        if kept.len() > 0 {
            assert(kept[0] == back[0]);
        }
        let k = lemma_find_block(rest, front, header, nested, kept);
        assert(forest[k] == rest[k]);
        assert(forest.take(k) == rest.take(k));
        assert(forest.skip(k + 1) == rest.skip(k + 1).push(last));
        lemma_flatten_push(rest.skip(k + 1), last, 0);
        lemma_content_concat(flatten(rest.skip(k + 1), 0) + seq![last.line(0)], lines_nested);
        lemma_content_concat(flatten(rest.skip(k + 1), 0), seq![last.line(0)]);
        assert(content(seq![last.line(0)]) =~= seq![(0nat, last.text@)]);
        assert(content(lines_nested) =~= all.skip(p + 1));
        assert(back =~= kept + seq![(0nat, last.text@)] + all.skip(p + 1));
        k
    }
}

/// None of the lines holds a line feed.
pub open spec fn are_lines(lines: Seq<Seq<char>>) -> bool {
    forall|i: int|
        0 <= i < lines.len() ==> first_index(#[trigger] lines[i], '\n') == lines[i].len()
}

/// The lines make a text that id allocation leaves as it is: none of them is
/// blank or a node header without an id, and the text has no white space at
/// its end.
pub open spec fn settled(lines: Seq<Seq<char>>) -> bool {
    &&& lines.len() >= 1
    &&& are_lines(lines)
    &&& identified(lines)
    &&& trim_end(join(lines, '\n')) == join(lines, '\n')
}

/// The line is indented, or says nothing in front of its comment.
pub open spec fn is_nested(raw: Seq<char>) -> bool {
    is_blank(strip_comment(raw)) || leading_tabs(strip_comment(raw)) >= 1
}

/// The line says something and is not indented: it is a node header.
pub open spec fn is_header(raw: Seq<char>) -> bool {
    !is_blank(strip_comment(raw)) && leading_tabs(strip_comment(raw)) == 0
}

/// The lines are those of one node of a type that is not known: a header
/// that names such a type, and below it lines that are indented.
pub open spec fn unknown_node_lines(lines: Seq<Seq<char>>) -> bool {
    &&& lines.len() >= 1
    &&& is_header(lines[0])
    &&& header_kind(trim(strip_comment(lines[0]))) == NodeKind::Unknown
    &&& forall|i: int| 1 <= i < lines.len() ==> is_nested(#[trigger] lines[i])
}

/// Where entry `j` of the module without the node stands in the module with
/// the node, the entry of the node being entry `k` there.
pub open spec fn place_with(j: int, k: int) -> int {
    if j < k {
        j
    } else {
        j + 1
    }
}

/// Two entries of modules hold the same: the same id, nodes of the same type
/// with the same frequency, and ports with the same sources and outlets.
pub open spec fn entries_agree(first: Module, i: int, second: Module, j: int) -> bool {
    &&& first.nodes.names@[i]@ == second.nodes.names@[j]@
    &&& match (first.nodes.values@[i], second.nodes.values@[j]) {
        (None, None) => true,
        (Some(Node::Sine(x)), Some(Node::Sine(y))) => x.frequency@ == y.frequency@,
        (Some(Node::Out(x)), Some(Node::Out(y))) => true,
        _ => false,
    }
    &&& forall|name: Seq<char>| #[trigger]
        first.ports.values@[i].source(name) == second.ports.values@[j].source(name)
    &&& forall|name: Seq<char>| #[trigger]
        first.ports.values@[i].outlet(name) == second.ports.values@[j].outlet(name)
}

/// Ports that are built for the same kind of node with the same source have
/// the same sources and outlets.
pub proof fn lemma_built_ports_agree(
    kind: NodeKind,
    first: Ports,
    second: Ports,
    source: Option<crate::nodes::common::InletView>,
)
    requires
        built_ports(kind, first, source),
        built_ports(kind, second, source),
    ensures
        forall|name: Seq<char>| #[trigger] first.source(name) == second.source(name),
        forall|name: Seq<char>| #[trigger] first.outlet(name) == second.outlet(name),
{
    assert forall|name: Seq<char>| #[trigger] first.source(name) == second.source(name) by {
        lemma_position_of(first.inlets.names@, name);
        lemma_position_of(second.inlets.names@, name);
        lemma_position_of(first.inlets.names@, inlet_name(kind));
        lemma_position_of(second.inlets.names@, inlet_name(kind));
    }
    assert forall|name: Seq<char>| #[trigger] first.outlet(name) == second.outlet(name) by {
        lemma_position_of(first.outlets.names@, name);
        lemma_position_of(second.outlets.names@, name);
        lemma_position_of(first.outlets.names@, "out"@);
        lemma_position_of(second.outlets.names@, "out"@);
    }
}

/// Forests whose blocks have the same texts offer the same outlets.
pub proof fn lemma_offered_by_text(a: Seq<IndentBlock>, b: Seq<IndentBlock>)
    requires
        same_writing(a, b),
    ensures
        offered(a) == offered(b),
{
    assert forall|pair: (Seq<char>, Seq<char>)| offered(a).contains(pair) == offered(b).contains(
        pair,
    ) by {
        if offered(a).contains(pair) {
            let k = choose|k: int|
                0 <= k < a.len() && header_name((#[trigger] a[k]).text@) == Some(pair.0)
                    && header_kind(a[k].text@) == NodeKind::Sine;
            assert(a[k].text@ == b[k].text@);
        }
        if offered(b).contains(pair) {
            let k = choose|k: int|
                0 <= k < b.len() && header_name((#[trigger] b[k]).text@) == Some(pair.0)
                    && header_kind(b[k].text@) == NodeKind::Sine;
            assert(a[k].text@ == b[k].text@);
        }
    }
    assert(offered(a) =~= offered(b));
}

/// The logical lines of lines that are indented are indented.
pub proof fn lemma_nested_lines(raws: Seq<Seq<char>>)
    requires
        forall|i: int| 0 <= i < raws.len() ==> is_nested(#[trigger] raws[i]),
    ensures
        forall|j: int|
            0 <= j < content(logical_lines(raws)).len() ==> (#[trigger] content(
                logical_lines(raws),
            )[j]).0 >= 1,
    decreases raws.len(),
{
    if raws.len() > 0 {
        let front = raws.drop_last();
        assert forall|i: int| 0 <= i < front.len() implies is_nested(#[trigger] front[i]) by {
            assert(front[i] == raws[i]);
        }
        lemma_nested_lines(front);
        assert(is_nested(raws[raws.len() - 1]));
        let all = logical_lines(raws);
        assert forall|j: int| 0 <= j < content(all).len() implies (#[trigger] content(all)[j]).0
            >= 1 by {
            if j < logical_lines(front).len() {
                assert(all[j] == logical_lines(front)[j]);
                assert(content(logical_lines(front))[j].0 >= 1);
            }
        }
    }
}

/// The logical lines of a header and the lines below it are, but for their
/// numbers, the header and the logical lines of those lines.
pub proof fn lemma_header_first(raws: Seq<Seq<char>>)
    requires
        raws.len() >= 1,
        is_header(raws[0]),
    ensures
        content(logical_lines(raws)) == seq![(0nat, trim(strip_comment(raws[0])))] + content(
            logical_lines(raws.skip(1)),
        ),
{
    let head = seq![raws[0]];
    assert(raws == head + raws.skip(1));
    lemma_logical_concat(head, raws.skip(1));
    assert(head.drop_last() == Seq::<Seq<char>>::empty());
    assert(logical_lines(Seq::<Seq<char>>::empty()).len() == 0);
    assert(content(logical_lines(head)) =~= seq![(0nat, trim(strip_comment(raws[0])))]);
}

/// Id allocation leaves a settled text as it is, so that the lines of the
/// text are the logical lines of its lines.
pub proof fn lemma_settled_lines(lines: Seq<Seq<char>>)
    requires
        settled(lines),
    ensures
        document_lines(allocate_ids(join(lines, '\n'))) == logical_lines(lines),
{
    lemma_split_join(lines, '\n');
    lemma_identified_text_unchanged(join(lines, '\n'));
}

/// A node of unknown type does not touch the nodes around it, stated of
/// texts. Take the lines of a text, `front` and `back`, and between them the
/// lines of a node of unknown type, `node`; the lines behind, if there are
/// any, start with a node header. Let both texts be such that id allocation
/// leaves them as they are, and let both be read. Then both readings offer
/// the same outlets. The text that comes back with the node is the text
/// that comes back without it, and between its lines, at the place of the
/// node, the header of the node with the comment and the lines below it as
/// they are. The errors are the same but for the one of the node. And the
/// module with the node has one entry more, without a node, for the id of
/// the node; every other entry holds what it holds in the module without.
pub proof fn lemma_unknown_node_in_text(
    front: Seq<Seq<char>>,
    node: Seq<Seq<char>>,
    back: Seq<Seq<char>>,
    without: Module,
    text: Seq<char>,
    with: Module,
    text_with: Seq<char>,
)
    requires
        unknown_node_lines(node),
        back.len() > 0 ==> is_header(back[0]),
        settled(front + back),
        settled(front + node + back),
        describes(join(front + back, '\n'), without, text),
        describes(join(front + node + back, '\n'), with, text_with),
    ensures
        signature(with.ports) == signature(without.ports),
        exists|x: Seq<Line>, inserted: Seq<Line>, y: Seq<Line>|
            {
                &&& content(inserted) == seq![
                    (0nat, trim(strip_comment(node[0])) + unknown_node_message()),
                ] + content(logical_lines(node.skip(1)))
                &&& text == trim(render(x + y))
                &&& text_with == trim(#[trigger] render(x + inserted + y))
            },
        exists|before: Seq<Seq<char>>, after: Seq<Seq<char>>|
            {
                &&& string_views(without.errors@) == before + after
                &&& string_views(with.errors@) == #[trigger] (before + seq![
                    trim(strip_comment(node[0])) + unknown_node_message(),
                ] + after)
            },
        with.nodes.names@.len() == without.nodes.names@.len() + 1,
        exists|k: int|
            {
                &&& 0 <= k <= without.nodes.names@.len()
                &&& (#[trigger] with.nodes.values@[k]) is None
                &&& header_name(trim(strip_comment(node[0]))) == Some(with.nodes.names@[k]@)
                &&& forall|j: int|
                    0 <= j < without.nodes.names@.len() ==> #[trigger] entries_agree(
                        without,
                        j,
                        with,
                        place_with(j, k),
                    )
            },
{
    let raw = join(front + back, '\n');
    let raw_with = join(front + node + back, '\n');
    let header = trim(strip_comment(node[0]));
    let message = unknown_node_message();
    let short = choose|forest: Seq<IndentBlock>| #[trigger] read_as(raw, forest, without, text);
    let long = choose|forest: Seq<IndentBlock>| #[trigger]
        read_as(raw_with, forest, with, text_with);
    // The lines of both texts.
    lemma_settled_lines(front + back);
    lemma_settled_lines(front + node + back);
    let lines_front = content(logical_lines(front));
    let lines_back = content(logical_lines(back));
    let nested = content(logical_lines(node.skip(1)));
    lemma_logical_concat(front, back);
    lemma_logical_concat(front + node, back);
    lemma_logical_concat(front, node);
    lemma_header_first(node);
    assert forall|i: int| 0 <= i < node.skip(1).len() implies is_nested(
        #[trigger] node.skip(1)[i],
    ) by {
        assert(node.skip(1)[i] == node[i + 1]);
    }
    lemma_nested_lines(node.skip(1));
    if back.len() > 0 {
        lemma_header_first(back);
        assert(lines_back[0].0 == 0);
    } else {
        assert(logical_lines(back).len() == 0);
        assert(lines_back.len() == 0);
    }
    assert(content(flatten(long, 0)) == lines_front + seq![(0nat, header)] + nested + lines_back);
    // The block of the node, and the blocks around it.
    let k = lemma_find_block(long, lines_front, header, nested, lines_back);
    let blocks_front = long.take(k);
    let block = long[k];
    let blocks_back = long.skip(k + 1);
    let around = blocks_front + blocks_back;
    assert(long == blocks_front + seq![block] + blocks_back);
    lemma_flatten_concat(blocks_front, blocks_back, 0);
    lemma_content_concat(flatten(blocks_front, 0), flatten(blocks_back, 0));
    assert(content(flatten(around, 0)) == content(flatten(short, 0)));
    // Both readings offer the same.
    lemma_signature_of_built(without, short);
    lemma_signature_of_built(with, long);
    lemma_offered_without(blocks_front, block, blocks_back);
    let known = signature(without.ports);
    lemma_forest_by_content(known, short, around);
    lemma_offered_by_text(short, around);
    assert(signature(with.ports) == known);
    // The texts.
    lemma_unknown_node_isolated(known, blocks_front, block, blocks_back);
    lemma_module_lines_concat(known, blocks_front, blocks_back);
    lemma_render_by_content(module_lines(known, short), module_lines(known, around));
    let x = module_lines(known, blocks_front);
    let y = module_lines(known, blocks_back);
    let inserted = seq![
        Line { number: block.line_number as nat, indent: 0, text: block.text@ + message },
    ] + flatten(block.children@, 1);
    lemma_content_concat(
        seq![Line { number: block.line_number as nat, indent: 0, text: block.text@ + message }],
        flatten(block.children@, 1),
    );
    assert(content(
        seq![Line { number: block.line_number as nat, indent: 0, text: block.text@ + message }],
    ) =~= seq![(0nat, header + message)]);
    assert(x + inserted + y == x + seq![
        Line { number: block.line_number as nat, indent: 0, text: block.text@ + message },
    ] + flatten(block.children@, 1) + y);
    assert(text == trim(render(x + y)));
    assert(text_with == trim(render(x + inserted + y)));
    // The errors.
    let before = module_faults(known, blocks_front);
    let after = module_faults(known, blocks_back);
    assert(string_views(without.errors@) == before + after);
    assert(string_views(with.errors@) == before + seq![header + message] + after);
    // The entries.
    assert(node_built(
        with.nodes.names@[k],
        with.nodes.values@[k],
        with.ports.values@[k],
        known,
        long[k],
    ));
    assert(short.len() == around.len());
    assert(around.len() == long.len() - 1);
    assert forall|j: int| 0 <= j < without.nodes.names@.len() implies #[trigger] entries_agree(
        without,
        j,
        with,
        place_with(j, k),
    ) by {
        let i = place_with(j, k);
        assert(around[j] == long[i]);
        assert(short[j].text@ == around[j].text@);
        lemma_node_by_content(known, short[j], around[j]);
        assert(node_built(
            without.nodes.names@[j],
            without.nodes.values@[j],
            without.ports.values@[j],
            known,
            short[j],
        ));
        assert(node_built(
            without.nodes.names@[j],
            without.nodes.values@[j],
            without.ports.values@[j],
            known,
            around[j],
        ));
        assert(node_built(
            with.nodes.names@[i],
            with.nodes.values@[i],
            with.ports.values@[i],
            known,
            long[i],
        ));
        let kind = header_kind(long[i].text@);
        let source = match kind {
            NodeKind::Unknown => None,
            _ => chosen_source(kind, known, long[i].children@),
        };
        lemma_built_ports_agree(kind, without.ports.values@[j], with.ports.values@[i], source);
    }
}

} // verus!
