//! Reading a module line by line, without building a tree.
//!
//! The lines of a text are gone through from top to bottom. Every line is
//! written to the result, with a comment behind it if it is not understood.
//! A line that is not understood takes the lines nested below it along
//! unread.

use vstd::prelude::*;
use vstd::string::StringExecFns;
use crate::parse::{lines_view, parse_module, Line, ParseError, TextLine};
use crate::parse_nodes::header_type;
use crate::text::{chars_of, find_char, first_index, same_text, slice_of, string_of};

verus! {

/// What has been read of a module so far.
pub struct ParseResults {
    /// Lines that should replace the content of the module that was parsed.
    /// These lines will contain errors too, as comments.
    pub lines: Vec<TextLine>,
    /// Errors that are shown to the user.
    pub errors: Vec<String>,
}

/// Indentation and text of each line.
pub open spec fn content(lines: Seq<Line>) -> Seq<(nat, Seq<char>)> {
    Seq::new(lines.len(), |k: int| (lines[k].indent, lines[k].text))
}

/// The lines are numbered from 1 in the order in which they stand.
pub open spec fn numbered(lines: Seq<Line>) -> bool {
    forall|k: int| 0 <= k < lines.len() ==> (#[trigger] lines[k]).number == k + 1
}

impl ParseResults {
    pub fn new() -> (result: ParseResults)
        ensures
            result.lines@.len() == 0,
            result.errors@.len() == 0,
    {
        ParseResults { lines: Vec::new(), errors: Vec::new() }
    }
}

/// The first word of a line and what follows its first space.
pub open spec fn property_of(text: Seq<char>) -> (Seq<char>, Seq<char>) {
    let at = first_index(text, ' ');
    if at < text.len() {
        (text.take(at), text.skip(at + 1))
    } else {
        (text, Seq::empty())
    }
}

/// The name of a property is the first word of its line.
pub proof fn lemma_first_word(text: Seq<char>)
    ensures
        property_of(text).0 == header_type(text),
{
    crate::text::lemma_first_index_bounds(text, ' ');
    assert(text.take(text.len() as int) == text);
}

/// Add a new line, based on previous line.
pub fn write_line(result: &mut ParseResults, line: &TextLine, text: &str)
    requires
        old(result).lines@.len() < usize::MAX,
    ensures
        final(result).errors == old(result).errors,
        lines_view(final(result).lines@) == lines_view(old(result).lines@).push(
            Line {
                number: old(result).lines@.len() + 1,
                indent: line.indent_level as nat,
                text: text@,
            },
        ),
{
    let added = TextLine {
        text: String::from_str(text),
        line_number: result.lines.len() + 1,
        indent_level: line.indent_level,
    };
    proof {
        assert(lines_view(result.lines@.push(added)) == lines_view(result.lines@).push(added@));
    }
    result.lines.push(added);
}

/// Forward a line without any modifications.
pub fn write_forward(result: &mut ParseResults, line: &TextLine)
    requires
        old(result).lines@.len() < usize::MAX,
    ensures
        final(result).errors == old(result).errors,
        final(result).lines@.len() == old(result).lines@.len() + 1,
        lines_view(final(result).lines@) == lines_view(old(result).lines@).push(
            Line {
                number: old(result).lines@.len() + 1,
                indent: line.indent_level as nat,
                text: line.text@,
            },
        ),
{
    let added = TextLine {
        text: line.text.clone(),
        line_number: result.lines.len() + 1,
        indent_level: line.indent_level,
    };
    proof {
        assert(lines_view(result.lines@.push(added)) == lines_view(result.lines@).push(added@));
    }
    result.lines.push(added);
}

/// Add a new line, as a child.
pub fn write_child_line(result: &mut ParseResults, line: &TextLine, text: &str)
    requires
        old(result).lines@.len() < usize::MAX,
        line.indent_level < usize::MAX,
    ensures
        final(result).errors == old(result).errors,
        lines_view(final(result).lines@) == lines_view(old(result).lines@).push(
            Line {
                number: old(result).lines@.len() + 1,
                indent: (line.indent_level + 1) as nat,
                text: text@,
            },
        ),
{
    let added = TextLine {
        text: String::from_str(text),
        line_number: result.lines.len() + 1,
        indent_level: line.indent_level + 1,
    };
    proof {
        assert(lines_view(result.lines@.push(added)) == lines_view(result.lines@).push(added@));
    }
    result.lines.push(added);
}

/// Splits a line into the name of a property and its value.
pub fn read_property(line: &TextLine) -> (r: (String, String))
    ensures
        r.0@ == property_of(line.text@).0,
        r.1@ == property_of(line.text@).1,
{
    let chars = chars_of(line.text.as_str());
    let at = find_char(&chars, ' ');
    if at < chars.len() {
        let name = slice_of(&chars, 0, at);
        let value = slice_of(&chars, at + 1, chars.len());
        (string_of(&name), string_of(&value))
    } else {
        (string_of(&chars), String::new())
    }
}

/// The current line, and how it is indented compared with the line
/// consumed last.
pub enum PeekerResult<'a> {
    /// The current line is indented deeper.
    IndentDown(&'a TextLine),
    /// The current line is indented less.
    IndentUp(&'a TextLine),
    /// The current line is on the same indentation.
    IndentSame(&'a TextLine),
    /// There are no lines left.
    Done,
}

/// Goes through the lines of a text and remembers the indentation of the
/// line that it consumed last.
pub struct Peeker {
    pub lines: Vec<TextLine>,
    pub index: usize,
    pub indent_level: usize,
}

/// Index of the first line from `from` on that is not indented deeper than
/// `level`: the end of what is nested below a line of that level.
pub open spec fn nested_end(lines: Seq<Line>, from: int, level: nat) -> int
    decreases lines.len() - from,
{
    if from < 0 || from >= lines.len() || lines[from].indent <= level {
        from
    } else {
        nested_end(lines, from + 1, level)
    }
}

/// The comment for a message.
pub open spec fn comment(message: Seq<char>) -> Seq<char> {
    "  # ERROR: "@ + message
}

/// What a line that is not understood brings to the result: itself with the
/// comment, and the lines nested below it as they are.
pub open spec fn faulty(lines: Seq<Line>, at: int, message: Seq<char>) -> Seq<(nat, Seq<char>)> {
    seq![(lines[at].indent, lines[at].text + comment(message))] + content(
        lines.subrange(at + 1, nested_end(lines, at + 1, lines[at].indent)),
    )
}

/// The indentation that is remembered after a line that is not understood:
/// that of the last line nested below it, or else the one remembered before.
pub open spec fn level_after_fault(lines: Seq<Line>, at: int, level: nat) -> nat {
    let end = nested_end(lines, at + 1, lines[at].indent);
    if end > at + 1 {
        lines[end - 1].indent
    } else {
        level
    }
}

pub proof fn lemma_nested_end(lines: Seq<Line>, from: int, level: nat)
    requires
        0 <= from <= lines.len(),
    ensures
        from <= nested_end(lines, from, level) <= lines.len(),
        forall|k: int| from <= k < nested_end(lines, from, level) ==> lines[k].indent > level,
        nested_end(lines, from, level) < lines.len() ==> lines[nested_end(
            lines,
            from,
            level,
        )].indent <= level,
    decreases lines.len() - from,
{
    if from < lines.len() && lines[from].indent > level {
        lemma_nested_end(lines, from + 1, level);
    }
}

impl Peeker {
    pub open spec fn wf(&self) -> bool {
        self.index <= self.lines@.len()
    }

    pub fn new(lines: Vec<TextLine>) -> (peeker: Peeker)
        ensures
            peeker.lines == lines,
            peeker.index == 0,
            peeker.indent_level == 0,
    {
        Peeker { lines, index: 0, indent_level: 0 }
    }

    /// Get the current line, and how it is indented.
    pub fn current(&self) -> (r: PeekerResult<'_>)
        ensures
            r == (if self.index >= self.lines@.len() {
                PeekerResult::Done
            } else if self.lines@[self.index as int].indent_level < self.indent_level {
                PeekerResult::IndentUp(&self.lines@[self.index as int])
            } else if self.lines@[self.index as int].indent_level == self.indent_level {
                PeekerResult::IndentSame(&self.lines@[self.index as int])
            } else {
                PeekerResult::IndentDown(&self.lines@[self.index as int])
            }),
    {
        if self.index >= self.lines.len() {
            PeekerResult::Done
        } else if self.lines[self.index].indent_level < self.indent_level {
            PeekerResult::IndentUp(&self.lines[self.index])
        } else if self.lines[self.index].indent_level == self.indent_level {
            PeekerResult::IndentSame(&self.lines[self.index])
        } else {
            PeekerResult::IndentDown(&self.lines[self.index])
        }
    }

    /// Consume current line: it is written to the result as it is.
    pub fn consume(&mut self, result: &mut ParseResults)
        requires
            old(self).index < old(self).lines@.len(),
            old(result).lines@.len() < usize::MAX,
        ensures
            final(self).lines == old(self).lines,
            final(self).index == old(self).index + 1,
            final(self).indent_level == old(self).lines@[old(self).index as int].indent_level,
            final(result).errors == old(result).errors,
            lines_view(final(result).lines@) == lines_view(old(result).lines@).push(
                Line {
                    number: old(result).lines@.len() + 1,
                    indent: old(self).lines@[old(self).index as int].indent_level as nat,
                    text: old(self).lines@[old(self).index as int].text@,
                },
            ),
            final(result).lines@.len() == old(result).lines@.len() + 1,
            numbered(lines_view(old(result).lines@)) ==> numbered(
                lines_view(final(result).lines@),
            ),
    {
        let total = self.lines.len();
        let ghost before = lines_view(result.lines@);
        write_forward(result, &self.lines[self.index]);
        self.indent_level = self.lines[self.index].indent_level;
        self.index += 1;
        proof {
            let after = lines_view(result.lines@);
            if numbered(before) {
                assert forall|k: int| 0 <= k < after.len() implies (#[trigger] after[k]).number == k
                    + 1 by {
                    if k < before.len() {
                        assert(after[k] == before[k]);
                    }
                }
            }
        }
    }

    /// Consume current line and the lines nested below it. Adds an error
    /// message to the first line.
    pub fn consume_with_error(&mut self, result: &mut ParseResults, error_message: &str)
        requires
            old(self).index < old(self).lines@.len(),
            old(result).lines@.len() + old(self).lines@.len() - old(self).index <= usize::MAX,
        ensures
            final(self).lines == old(self).lines,
            final(self).index == nested_end(
                lines_view(old(self).lines@),
                old(self).index + 1,
                old(self).lines@[old(self).index as int].indent_level as nat,
            ),
            final(self).indent_level == level_after_fault(
                lines_view(old(self).lines@),
                old(self).index as int,
                old(self).indent_level as nat,
            ),
            final(result).errors == old(result).errors,
            final(result).lines@.len() - old(result).lines@.len() == final(self).index - old(self).index,
            content(lines_view(final(result).lines@)) == content(lines_view(old(result).lines@))
                + faulty(lines_view(old(self).lines@), old(self).index as int, error_message@),
            numbered(lines_view(old(result).lines@)) ==> numbered(
                lines_view(final(result).lines@),
            ),
    {
        let ghost lines = lines_view(self.lines@);
        let ghost at = self.index as int;
        let ghost before = lines_view(result.lines@);
        let total = self.lines.len();
        let indent_level = self.lines[self.index].indent_level;
        let mut text = self.lines[self.index].text.clone();
        text.append("  # ERROR: ");
        text.append(error_message);
        let added = TextLine { text, line_number: result.lines.len() + 1, indent_level };
        proof {
            assert(lines[at] == self.lines@[at]@);
            assert((lines[at].text + "  # ERROR: "@) + error_message@ == lines[at].text + comment(
                error_message@,
            ));
            assert(lines_view(result.lines@.push(added)) == before.push(added@));
            assert(content(before.push(added@)) == content(before) + seq![
                (lines[at].indent, lines[at].text + comment(error_message@)),
            ]);
            assert(lines.subrange(at + 1, at + 1) == Seq::<Line>::empty());
        }
        result.lines.push(added);
        self.index += 1;
        let ghost head = content(lines_view(result.lines@));
        while self.index < self.lines.len() && self.lines[self.index].indent_level > indent_level
            invariant
                0 <= at < self.index <= self.lines@.len(),
                self.lines == old(self).lines,
                lines == lines_view(self.lines@),
                indent_level == lines[at].indent,
                result.errors == old(result).errors,
                result.lines@.len() - old(result).lines@.len() == self.index - at,
                old(result).lines@.len() + self.lines@.len() - at <= usize::MAX,
                forall|k: int| at + 1 <= k < self.index ==> lines[k].indent > indent_level,
                head == content(before) + seq![
                    (lines[at].indent, lines[at].text + comment(error_message@)),
                ],
                content(lines_view(result.lines@)) == head + content(
                    lines.subrange(at + 1, self.index as int),
                ),
                self.indent_level == (if self.index > at + 1 {
                    lines[self.index - 1].indent
                } else {
                    old(self).indent_level as nat
                }),
                numbered(before) ==> numbered(lines_view(result.lines@)),
            decreases self.lines@.len() - self.index,
        {
            let ghost seen = lines_view(result.lines@);
            proof {
                assert(lines[self.index as int] == self.lines@[self.index as int]@);
            }
            self.consume(result);
            proof {
                let line = lines[self.index - 1];
                assert(lines.subrange(at + 1, self.index as int) == lines.subrange(
                    at + 1,
                    self.index - 1,
                ).push(line));
                assert(content(lines_view(result.lines@)) == content(seen).push(
                    (line.indent, line.text),
                ));
            }
        }
        proof {
            lemma_nested_end_is(lines, at + 1, indent_level as nat, self.index as int);
        }
    }
}

pub proof fn lemma_nested_end_is(lines: Seq<Line>, from: int, level: nat, end: int)
    requires
        0 <= from <= end <= lines.len(),
        forall|k: int| from <= k < end ==> lines[k].indent > level,
        end < lines.len() ==> lines[end].indent <= level,
    ensures
        nested_end(lines, from, level) == end,
    decreases end - from,
{
    if from < end {
        lemma_nested_end_is(lines, from + 1, level, end);
    }
}

/// What the properties of a `sine` node bring to the result, from line `at`
/// on, and where reading goes on behind them. `level` is the indentation of
/// the line consumed last. A line is taken for a property as long as it is
/// not indented less than that; `frequency` is the one property known.
pub open spec fn sine_properties(lines: Seq<Line>, at: int, level: nat) -> (
    Seq<(nat, Seq<char>)>,
    int,
)
    decreases lines.len() - at,
{
    if at < 0 || at >= lines.len() || lines[at].indent < level {
        (Seq::empty(), at)
    } else if header_type(lines[at].text) == "frequency"@ {
        let rest = sine_properties(lines, at + 1, lines[at].indent);
        (seq![(lines[at].indent, lines[at].text)] + rest.0, rest.1)
    } else {
        let end = nested_end(lines, at + 1, lines[at].indent);
        if at < end <= lines.len() {
            let rest = sine_properties(lines, end, level_after_fault(lines, at, level));
            (faulty(lines, at, "Unknown property"@) + rest.0, rest.1)
        } else {
            (Seq::empty(), at)
        }
    }
}

/// What the nodes of a module bring to the result, from line `at` on. A
/// node starts on a line that is not indented; a line that is indented
/// where a node should start cannot be read, and reading stops at it.
pub open spec fn module_from(lines: Seq<Line>, at: int) -> Result<Seq<(nat, Seq<char>)>, nat>
    decreases lines.len() - at,
{
    if at < 0 || at >= lines.len() {
        Ok(Seq::empty())
    } else if lines[at].indent > 0 {
        Err(lines[at].number)
    } else if header_type(lines[at].text) == "sine"@ {
        let properties = sine_properties(lines, at + 1, 0);
        if at < properties.1 <= lines.len() {
            match module_from(lines, properties.1) {
                Ok(rest) => Ok(seq![(0nat, lines[at].text)] + properties.0 + rest),
                Err(number) => Err(number),
            }
        } else {
            Ok(Seq::empty())
        }
    } else {
        let end = nested_end(lines, at + 1, 0);
        if at < end <= lines.len() {
            match module_from(lines, end) {
                Ok(rest) => Ok(faulty(lines, at, "Unknown node"@) + rest),
                Err(number) => Err(number),
            }
        } else {
            Ok(Seq::empty())
        }
    }
}

pub proof fn lemma_sine_properties(lines: Seq<Line>, at: int, level: nat)
    requires
        0 <= at <= lines.len(),
    ensures
        at <= sine_properties(lines, at, level).1 <= lines.len(),
    decreases lines.len() - at,
{
    if at < lines.len() && lines[at].indent >= level {
        if header_type(lines[at].text) == "frequency"@ {
            lemma_sine_properties(lines, at + 1, lines[at].indent);
        } else {
            lemma_nested_end(lines, at + 1, lines[at].indent);
            lemma_sine_properties(
                lines,
                nested_end(lines, at + 1, lines[at].indent),
                level_after_fault(lines, at, level),
            );
        }
    }
}

/// Reads the node that starts at the current line: a `sine` with its
/// properties, or a node of a type that is not known. At the end of the
/// lines there is no node, and nothing happens.
pub fn parse_node(result: &mut ParseResults, peeker: &mut Peeker)
    requires
        old(peeker).index < old(peeker).lines@.len() ==> old(peeker).lines@[old(peeker).index as int].indent_level == 0 && old(result).lines@.len() + old(peeker).lines@.len()
            - old(peeker).index <= usize::MAX,
    ensures
        final(peeker).lines == old(peeker).lines,
        final(result).errors == old(result).errors,
        final(result).lines@.len() - old(result).lines@.len() == final(peeker).index - old(peeker).index,
        numbered(lines_view(old(result).lines@)) ==> numbered(lines_view(final(result).lines@)),
        old(peeker).index >= old(peeker).lines@.len() ==> final(peeker).index == old(peeker).index
            && final(peeker).indent_level == old(peeker).indent_level && final(result).lines
            == old(result).lines,
        old(peeker).index < old(peeker).lines@.len() ==> old(peeker).index < final(peeker).index
            <= final(peeker).lines@.len(),
        old(peeker).index < old(peeker).lines@.len() && header_type(old(peeker).lines@[old(peeker).index as int].text@) == "sine"@ ==> final(peeker).index == sine_properties(lines_view(old(peeker).lines@), old(peeker).index + 1, 0).1
            && content(lines_view(final(result).lines@)) == content(
            lines_view(old(result).lines@),
        ) + seq![(0nat, old(peeker).lines@[old(peeker).index as int].text@)] + sine_properties(
            lines_view(old(peeker).lines@),
            old(peeker).index + 1,
            0,
        ).0,
        old(peeker).index < old(peeker).lines@.len() && header_type(old(peeker).lines@[old(peeker).index as int].text@) != "sine"@ ==> final(peeker).index == nested_end(lines_view(old(peeker).lines@), old(peeker).index + 1, 0)
            && content(lines_view(final(result).lines@)) == content(
            lines_view(old(result).lines@),
        ) + faulty(lines_view(old(peeker).lines@), old(peeker).index as int, "Unknown node"@),
{
    if peeker.index >= peeker.lines.len() {
        return;
    }
    let ghost lines = lines_view(peeker.lines@);
    let ghost at = peeker.index as int;
    let ghost before = content(lines_view(result.lines@));
    let total = peeker.lines.len();
    proof {
        assert(lines[at] == peeker.lines@[at]@);
        lemma_first_word(lines[at].text);
    }
    let (name, _) = read_property(&peeker.lines[peeker.index]);
    if same_text(name.as_str(), "sine") {
        let ghost seen = lines_view(result.lines@);
        peeker.consume(result);
        proof {
            assert(content(lines_view(result.lines@)) == content(seen).push((0nat, lines[at].text)));
            assert(content(seen).push((0nat, lines[at].text)) == before + seq![
                (0nat, lines[at].text),
            ]);
        }
        let ghost head = content(lines_view(result.lines@));
        let ghost goal = sine_properties(lines, at + 1, 0);
        proof {
            assert(head + Seq::<(nat, Seq<char>)>::empty() == head);
        }
        let mut done = false;
        while !done
            invariant
                at < peeker.index <= peeker.lines@.len(),
                total == peeker.lines@.len(),
                peeker.lines == old(peeker).lines,
                lines == lines_view(peeker.lines@),
                result.errors == old(result).errors,
                result.lines@.len() - old(result).lines@.len() == peeker.index - at,
                old(result).lines@.len() + peeker.lines@.len() - at <= usize::MAX,
                numbered(lines_view(old(result).lines@)) ==> numbered(lines_view(result.lines@)),
                goal == sine_properties(lines, at + 1, 0),
                !done ==> exists|sofar: Seq<(nat, Seq<char>)>|
                    #![trigger head + sofar]
                    content(lines_view(result.lines@)) == head + sofar && goal.0 == sofar
                        + sine_properties(lines, peeker.index as int, peeker.indent_level as nat).0
                        && goal.1 == sine_properties(
                        lines,
                        peeker.index as int,
                        peeker.indent_level as nat,
                    ).1,
                done ==> content(lines_view(result.lines@)) == head + goal.0 && goal.1
                    == peeker.index,
            decreases peeker.lines@.len() - peeker.index + (if done {
                0int
            } else {
                1int
            }),
        {
            let ghost sofar = choose|sofar: Seq<(nat, Seq<char>)>|
                #![trigger head + sofar]
                content(lines_view(result.lines@)) == head + sofar && goal.0 == sofar
                    + sine_properties(lines, peeker.index as int, peeker.indent_level as nat).0
                    && goal.1 == sine_properties(
                    lines,
                    peeker.index as int,
                    peeker.indent_level as nat,
                ).1;
            let ghost here = peeker.index as int;
            let ghost level = peeker.indent_level as nat;
            let known: Option<bool> = match peeker.current() {
                PeekerResult::IndentDown(line) | PeekerResult::IndentSame(line) => {
                    let (key, _) = read_property(line);
                    Some(same_text(key.as_str(), "frequency"))
                },
                _ => None,
            };
            match known {
                Some(is_frequency) => {
                    proof {
                        assert(lines[here] == peeker.lines@[here]@);
                        lemma_nested_end(lines, here + 1, lines[here].indent);
                        lemma_first_word(lines[here].text);
                    }
                    if is_frequency {
                        let ghost seen = lines_view(result.lines@);
                        peeker.consume(result);
                        proof {
                            let entry = (lines[here].indent, lines[here].text);
                            assert(content(lines_view(result.lines@)) == content(seen).push(entry));
                            let longer = sofar.push(entry);
                            assert(content(seen).push(entry) == head + longer);
                            let rest = sine_properties(lines, here + 1, lines[here].indent);
                            assert(sofar + (seq![entry] + rest.0) == longer + rest.0);
                        }
                    } else {
                        peeker.consume_with_error(result, "Unknown property");
                        proof {
                            let block = faulty(lines, here, "Unknown property"@);
                            let longer = sofar + block;
                            assert((head + sofar) + block == head + longer);
                            let rest = sine_properties(
                                lines,
                                peeker.index as int,
                                level_after_fault(lines, here, level),
                            );
                            assert(sofar + (block + rest.0) == longer + rest.0);
                        }
                    }
                },
                None => {
                    proof {
                        if here < lines.len() {
                            assert(lines[here] == peeker.lines@[here]@);
                        }
                        assert(sofar + Seq::<(nat, Seq<char>)>::empty() == sofar);
                    }
                    done = true;
                },
            }
        }
    } else {
        peeker.consume_with_error(result, "Unknown node");
        proof {
            lemma_nested_end(lines, at + 1, 0);
        }
    }
}

/// Parse a module line by line, and return its lines with error messages
/// behind those that were not understood. Fails at a line that is indented
/// where a node should start.
pub fn parse_module_text(text: &str) -> (r: Result<ParseResults, ParseError>)
    ensures
        match r {
            Ok(result) => {
                &&& module_from(crate::parse::document_lines(text@), 0) == Ok::<
                    Seq<(nat, Seq<char>)>,
                    nat,
                >(content(lines_view(result.lines@)))
                &&& numbered(lines_view(result.lines@))
                &&& result.errors@.len() == 0
            },
            Err(ParseError::Unconsumed { line_number }) => module_from(
                crate::parse::document_lines(text@),
                0,
            ) == Err::<Seq<(nat, Seq<char>)>, nat>(line_number as nat),
            Err(_) => false,
        },
{
    let parsed = parse_module(text);
    let ghost lines = lines_view(parsed@);
    let mut peeker = Peeker::new(parsed);
    let mut result = ParseResults::new();
    proof {
        assert(content(lines_view(result.lines@)) == Seq::<(nat, Seq<char>)>::empty());
    }
    while peeker.index < peeker.lines.len()
        invariant
            peeker.index <= peeker.lines@.len(),
            lines == lines_view(peeker.lines@),
            lines == crate::parse::document_lines(text@),
            result.lines@.len() == peeker.index,
            result.errors@.len() == 0,
            numbered(lines_view(result.lines@)),
            match module_from(lines, peeker.index as int) {
                Ok(rest) => module_from(lines, 0) == Ok::<Seq<(nat, Seq<char>)>, nat>(
                    content(lines_view(result.lines@)) + rest,
                ),
                Err(number) => module_from(lines, 0) == Err::<Seq<(nat, Seq<char>)>, nat>(number),
            },
        decreases peeker.lines@.len() - peeker.index,
    {
        let ghost at = peeker.index as int;
        let ghost sofar = content(lines_view(result.lines@));
        proof {
            assert(lines[at] == peeker.lines@[at]@);
            lemma_sine_properties(lines, at + 1, 0);
            lemma_nested_end(lines, at + 1, 0);
        }
        if peeker.lines[peeker.index].indent_level > 0 {
            return Err(
                ParseError::Unconsumed { line_number: peeker.lines[peeker.index].line_number },
            );
        }
        parse_node(&mut result, &mut peeker);
        proof {
            match module_from(lines, peeker.index as int) {
                Ok(rest) => {
                    if header_type(lines[at].text) == "sine"@ {
                        let properties = sine_properties(lines, at + 1, 0);
                        assert(sofar + (seq![(0nat, lines[at].text)] + properties.0 + rest) == sofar
                            + seq![(0nat, lines[at].text)] + properties.0 + rest);
                    } else {
                        let block = faulty(lines, at, "Unknown node"@);
                        assert(sofar + (block + rest) == sofar + block + rest);
                    }
                },
                Err(number) => {},
            }
        }
    }
    proof {
        assert(content(lines_view(result.lines@)) + Seq::<(nat, Seq<char>)>::empty() == content(
            lines_view(result.lines@),
        ));
    }
    Ok(result)
}

} // verus!
