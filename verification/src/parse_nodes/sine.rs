//! Reading a `sine` node line by line.

use vstd::prelude::*;
use crate::parse::{lines_view, Line};
use crate::parse_nodes::lines::{
    content, faulty, lemma_nested_end, nested_end, numbered, property_of, read_property,
    ParseResults, Peeker,
};
use crate::parse_nodes::{header_name, parse_node_header};
use crate::text::{chars_of, find_char, first_index, same_text};
use crate::number::{is_float_literal, is_float_literal_chars};

verus! {

/// What is wrong with the line as a property of a `sine` node, if
/// anything is. The node has one property, `frequency`, with a number for
/// its value.
pub open spec fn property_fault(text: Seq<char>) -> Option<Seq<char>> {
    let value = property_of(text).1;
    if property_of(text).0 != "frequency"@ {
        Some("Unknown property"@)
    } else if first_index(text, ' ') >= text.len() {
        Some("Missing value"@)
    } else if is_float_literal(value) {
        None
    } else if value.len() == 0 {
        Some("Invalid float value: cannot parse float from empty string"@)
    } else {
        Some("Invalid float value: invalid float literal"@)
    }
}

/// What the properties of a `sine` node bring to the result, from line `at`
/// on, and where reading goes on behind them. The properties are the lines
/// that are indented to `level` at least.
pub open spec fn properties_from(lines: Seq<Line>, at: int, level: nat) -> (
    Seq<(nat, Seq<char>)>,
    int,
)
    decreases lines.len() - at,
{
    if at < 0 || at >= lines.len() || lines[at].indent < level {
        (Seq::empty(), at)
    } else {
        match property_fault(lines[at].text) {
            None => {
                let rest = properties_from(lines, at + 1, level);
                (seq![(lines[at].indent, lines[at].text)] + rest.0, rest.1)
            },
            Some(message) => {
                let end = nested_end(lines, at + 1, lines[at].indent);
                if at < end <= lines.len() {
                    let rest = properties_from(lines, end, level);
                    (faulty(lines, at, message) + rest.0, rest.1)
                } else {
                    (Seq::empty(), at)
                }
            },
        }
    }
}

/// Reads the `sine` node whose header is the current line: the header, which
/// has to hold the id of the node, and the properties on the lines indented
/// below it. Returns the id.
pub fn parse(result: &mut ParseResults, peeker: &mut Peeker) -> (id: String)
    requires
        old(peeker).index < old(peeker).lines@.len(),
        old(peeker).lines@[old(peeker).index as int].indent_level < usize::MAX,
        header_name(old(peeker).lines@[old(peeker).index as int].text@) is Some,
        old(result).lines@.len() + old(peeker).lines@.len() - old(peeker).index <= usize::MAX,
    ensures
        Some(id@) == header_name(old(peeker).lines@[old(peeker).index as int].text@),
        final(peeker).lines == old(peeker).lines,
        final(peeker).index == properties_from(
            lines_view(old(peeker).lines@),
            old(peeker).index + 1,
            (old(peeker).lines@[old(peeker).index as int].indent_level + 1) as nat,
        ).1,
        final(result).lines@.len() - old(result).lines@.len() == final(peeker).index - old(peeker).index,
        final(result).errors == old(result).errors,
        numbered(lines_view(old(result).lines@)) ==> numbered(lines_view(final(result).lines@)),
        content(lines_view(final(result).lines@)) == content(lines_view(old(result).lines@))
            + seq![
            (
                old(peeker).lines@[old(peeker).index as int].indent_level as nat,
                old(peeker).lines@[old(peeker).index as int].text@,
            ),
        ] + properties_from(
            lines_view(old(peeker).lines@),
            old(peeker).index + 1,
            (old(peeker).lines@[old(peeker).index as int].indent_level + 1) as nat,
        ).0,
{
    let ghost lines = lines_view(peeker.lines@);
    let ghost at = peeker.index as int;
    let ghost before = content(lines_view(result.lines@));
    let total = peeker.lines.len();
    proof {
        assert(lines[at] == peeker.lines@[at]@);
    }
    let indent_level = peeker.lines[peeker.index].indent_level + 1;
    let (_, name) = parse_node_header(peeker.lines[peeker.index].text.as_str());
    let id = match name {
        Some(id) => id,
        None => String::new(),
    };
    let ghost seen = lines_view(result.lines@);
    peeker.consume(result);
    proof {
        let entry = (lines[at].indent, lines[at].text);
        assert(content(lines_view(result.lines@)) == content(seen).push(entry));
        assert(content(seen).push(entry) == before + seq![entry]);
    }
    let ghost head = content(lines_view(result.lines@));
    let ghost goal = properties_from(lines, at + 1, indent_level as nat);
    proof {
        assert(head + Seq::<(nat, Seq<char>)>::empty() == head);
    }
    while peeker.index < peeker.lines.len() && peeker.lines[peeker.index].indent_level
        >= indent_level
        invariant
            at < peeker.index <= peeker.lines@.len(),
            total == peeker.lines@.len(),
            peeker.lines == old(peeker).lines,
            lines == lines_view(peeker.lines@),
            result.errors == old(result).errors,
            result.lines@.len() - old(result).lines@.len() == peeker.index - at,
            old(result).lines@.len() + peeker.lines@.len() - at <= usize::MAX,
            numbered(lines_view(old(result).lines@)) ==> numbered(lines_view(result.lines@)),
            goal == properties_from(lines, at + 1, indent_level as nat),
            exists|sofar: Seq<(nat, Seq<char>)>|
                #![trigger head + sofar]
                content(lines_view(result.lines@)) == head + sofar && goal.0 == sofar
                    + properties_from(lines, peeker.index as int, indent_level as nat).0 && goal.1
                    == properties_from(lines, peeker.index as int, indent_level as nat).1,
        decreases peeker.lines@.len() - peeker.index,
    {
        let ghost sofar = choose|sofar: Seq<(nat, Seq<char>)>|
            #![trigger head + sofar]
            content(lines_view(result.lines@)) == head + sofar && goal.0 == sofar
                + properties_from(lines, peeker.index as int, indent_level as nat).0 && goal.1
                == properties_from(lines, peeker.index as int, indent_level as nat).1;
        let ghost here = peeker.index as int;
        proof {
            assert(lines[here] == peeker.lines@[here]@);
            lemma_nested_end(lines, here + 1, lines[here].indent);
        }
        let chars = chars_of(peeker.lines[peeker.index].text.as_str());
        let has_value = find_char(&chars, ' ') < chars.len();
        let (key, value) = read_property(&peeker.lines[peeker.index]);
        let digits = chars_of(value.as_str());
        let fault: Option<&str> = if !same_text(key.as_str(), "frequency") {
            Some("Unknown property")
        } else if !has_value {
            Some("Missing value")
        } else if is_float_literal_chars(&digits) {
            None
        } else if digits.len() == 0 {
            Some("Invalid float value: cannot parse float from empty string")
        } else {
            Some("Invalid float value: invalid float literal")
        };
        match fault {
            None => {
                let ghost seen = lines_view(result.lines@);
                peeker.consume(result);
                proof {
                    let entry = (lines[here].indent, lines[here].text);
                    assert(content(lines_view(result.lines@)) == content(seen).push(entry));
                    let longer = sofar.push(entry);
                    assert(content(seen).push(entry) == head + longer);
                    let rest = properties_from(lines, here + 1, indent_level as nat);
                    assert(sofar + (seq![entry] + rest.0) == longer + rest.0);
                }
            },
            Some(message) => {
                peeker.consume_with_error(result, message);
                proof {
                    let block = faulty(lines, here, message@);
                    let longer = sofar + block;
                    assert((head + sofar) + block == head + longer);
                    let rest = properties_from(lines, peeker.index as int, indent_level as nat);
                    assert(sofar + (block + rest.0) == longer + rest.0);
                }
            },
        }
    }
    proof {
        let sofar = choose|sofar: Seq<(nat, Seq<char>)>|
            #![trigger head + sofar]
            content(lines_view(result.lines@)) == head + sofar && goal.0 == sofar
                + properties_from(lines, peeker.index as int, indent_level as nat).0 && goal.1
                == properties_from(lines, peeker.index as int, indent_level as nat).1;
        if peeker.index < peeker.lines@.len() {
            assert(lines[peeker.index as int] == peeker.lines@[peeker.index as int]@);
        }
        assert(sofar + Seq::<(nat, Seq<char>)>::empty() == sofar);
    }
    id
}

} // verus!
