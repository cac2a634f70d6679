//! Parameter lines: what stands on the lines below a node header.
//!
//! ```text
//! <key> <value...>              a constant
//! <key> <- <node_id>:<outlet>   an inlet wired to an outlet of another node
//! <key> -> <node_id> <inlet>    an outlet wired forward
//! ```

use vstd::prelude::*;
use vstd::string::StringExecFns;
use crate::text::{
    chars_are, chars_of, find_char, first_index, lemma_first_piece, slice_of, split, split_chars,
    string_of, trim, trim_chars, vec_views,
};

verus! {

/// What a parameter line of a node says.
pub enum PortParameter {
    /// The parameter is connected to an outlet of another node.
    Inlet { name: String, node_id: String, outlet: String },
    /// An outlet that is wired forward to an inlet of another node.
    Outlet { name: String, node_id: String, inlet: String },
    /// The parameter has a constant value.
    Constant { name: String, value: String },
}

pub enum PortParameterView {
    Inlet { name: Seq<char>, node_id: Seq<char>, outlet: Seq<char> },
    Outlet { name: Seq<char>, node_id: Seq<char>, inlet: Seq<char> },
    Constant { name: Seq<char>, value: Seq<char> },
}

impl View for PortParameter {
    type V = PortParameterView;

    open spec fn view(&self) -> PortParameterView {
        match self {
            PortParameter::Inlet { name, node_id, outlet } => PortParameterView::Inlet {
                name: name@,
                node_id: node_id@,
                outlet: outlet@,
            },
            PortParameter::Outlet { name, node_id, inlet } => PortParameterView::Outlet {
                name: name@,
                node_id: node_id@,
                inlet: inlet@,
            },
            PortParameter::Constant { name, value } => PortParameterView::Constant {
                name: name@,
                value: value@,
            },
        }
    }
}

pub open spec fn invalid_reference_message() -> Seq<char> {
    "  # ERROR: Invalid node:port reference"@
}

pub open spec fn missing_node_message() -> Seq<char> {
    "  # ERROR: Missing id of the connecting node"@
}

pub open spec fn missing_port_message() -> Seq<char> {
    "  # ERROR: Missing name of port of the connecting node"@
}

pub open spec fn missing_value_message() -> Seq<char> {
    "  # ERROR: Parameter is missing value"@
}

/// The key of a parameter line: the first word of the trimmed line.
pub open spec fn parameter_name(text: Seq<char>) -> Seq<char> {
    trim(text).take(first_index(trim(text), ' '))
}

/// What a parameter line says, or the comment that says what is wrong with
/// it. The line is trimmed and cut into words at each space. The first word
/// is the key. `<-` as the second word makes the line an inlet, which takes
/// its source from the third word, `node:outlet`; `->` makes it an outlet,
/// with a node id and an inlet name as third and fourth word. Anything else
/// makes it a constant, whose value is all that follows the key, trimmed.
pub open spec fn parameter_of(text: Seq<char>) -> Result<PortParameterView, Seq<char>> {
    let words = split(trim(text), ' ');
    let name = parameter_name(text);
    if words.len() < 2 {
        Err(missing_value_message())
    } else if words[1] == "<-"@ {
        if words.len() < 3 {
            Err(missing_node_message())
        } else {
            let at = first_index(words[2], ':');
            if at < words[2].len() {
                Ok(
                    PortParameterView::Inlet {
                        name,
                        node_id: words[2].take(at),
                        outlet: words[2].skip(at + 1),
                    },
                )
            } else {
                Err(invalid_reference_message())
            }
        }
    } else if words[1] == "->"@ {
        if words.len() < 3 {
            Err(missing_node_message())
        } else if words.len() < 4 {
            Err(missing_port_message())
        } else {
            Ok(PortParameterView::Outlet { name, node_id: words[2], inlet: trim(words[3]) })
        }
    } else {
        Ok(
            PortParameterView::Constant {
                name,
                value: trim(trim(text).skip(first_index(trim(text), ' ') + 1)),
            },
        )
    }
}

/// The key of a parameter line.
pub fn parameter_key(text: &str) -> (key: String)
    ensures
        key@ == parameter_name(text@),
{
    let chars = chars_of(text);
    let trimmed = trim_chars(&chars);
    let at = find_char(&trimmed, ' ');
    let name = slice_of(&trimmed, 0, at);
    string_of(&name)
}

/// Parse a parameter line that can be connected to an outlet of another node.
pub fn parse_node_parameter(text: &str) -> (r: Result<PortParameter, String>)
    ensures
        match r {
            Ok(parameter) => parameter_of(text@) == Ok::<PortParameterView, Seq<char>>(
                parameter@,
            ),
            Err(message) => parameter_of(text@) == Err::<PortParameterView, Seq<char>>(message@),
        },
{
    let chars = chars_of(text);
    let trimmed = trim_chars(&chars);
    let at = find_char(&trimmed, ' ');
    let name = string_of(&slice_of(&trimmed, 0, at));
    let words = split_chars(&trimmed, ' ');
    let ghost views = vec_views(words@);
    proof {
        lemma_first_piece(trimmed@, ' ');
    }
    if words.len() < 2 {
        return Err(String::from_str("  # ERROR: Parameter is missing value"));
    }
    proof {
        assert(views[1] == words[1]@);
    }
    if chars_are(&words[1], "<-") {
        if words.len() < 3 {
            return Err(String::from_str("  # ERROR: Missing id of the connecting node"));
        }
        proof {
            assert(views[2] == words[2]@);
        }
        let source = &words[2];
        let colon = find_char(source, ':');
        if colon < source.len() {
            let node_id = slice_of(source, 0, colon);
            let outlet = slice_of(source, colon + 1, source.len());
            Ok(
                PortParameter::Inlet {
                    name,
                    node_id: string_of(&node_id),
                    outlet: string_of(&outlet),
                },
            )
        } else {
            Err(String::from_str("  # ERROR: Invalid node:port reference"))
        }
    } else if chars_are(&words[1], "->") {
        if words.len() < 3 {
            return Err(String::from_str("  # ERROR: Missing id of the connecting node"));
        }
        if words.len() < 4 {
            return Err(String::from_str("  # ERROR: Missing name of port of the connecting node"));
        }
        proof {
            assert(views[2] == words[2]@);
            assert(views[3] == words[3]@);
        }
        let inlet = trim_chars(&words[3]);
        Ok(
            PortParameter::Outlet {
                name,
                node_id: string_of(&words[2]),
                inlet: string_of(&inlet),
            },
        )
    } else {
        let rest = slice_of(&trimmed, at + 1, trimmed.len());
        let value = trim_chars(&rest);
        Ok(PortParameter::Constant { name, value: string_of(&value) })
    }
}

} // verus!
