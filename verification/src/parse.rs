//! Indentation parser: turns text into a tree of blocks and back.
//!
//! A document is read line by line. A `#` starts a comment that runs to the
//! end of its line; lines that are blank once the comment is gone do not
//! count. What is left of a line is its indentation, the number of tabs it
//! starts with, and its trimmed text. A line is the child of the nearest line
//! above it that is indented one level less.

use vstd::prelude::*;
use crate::text::{
    chars_of, find_char, first_index, is_blank, is_blank_chars, is_whitespace, lemma_join_ends,
    lemma_join_split, lemma_leading_whitespace_is, lemma_lines_text_is_join, lemma_trim_is_trimmed,
    lemma_trim_line_feed, lines_text, slice_of, split, split_chars, string_of, tabs, trim,
    trim_chars, vec_views,
};

verus! {

/// One logical line of a document, as specifications see it.
pub struct Line {
    /// Position of the line in the text, counted from 1, blank lines included.
    pub number: nat,
    /// Number of tabs in front of the line.
    pub indent: nat,
    /// The line without comment and surrounding white space.
    pub text: Seq<char>,
}

/// One logical line of a document.
pub struct TextLine {
    pub text: String,
    pub line_number: usize,
    pub indent_level: usize,
}

impl View for TextLine {
    type V = Line;

    open spec fn view(&self) -> Line {
        Line {
            number: self.line_number as nat,
            indent: self.indent_level as nat,
            text: self.text@,
        }
    }
}

/// A line of text with the lines nested below it.
pub struct IndentBlock {
    pub text: String,
    pub children: Vec<IndentBlock>,
    /// Number of blocks below this one, at any depth.
    pub deep_count: usize,
    /// Number of the line this block was read from; 0 for the root.
    pub line_number: usize,
}

/// Why a text could not be read.
#[derive(Debug, PartialEq, Eq, Structural)]
pub enum ParseError {
    /// The text holds no line with content.
    Empty,
    /// The line is indented more than one level deeper than the line above it.
    Indentation { line_number: usize },
    /// The node header on this line has a type but no id.
    MissingId { line_number: usize },
    /// The node header on this line repeats the id of an earlier node.
    DuplicateId { line_number: usize },
    /// The line is indented although no node is being read that it could
    /// belong to.
    Unconsumed { line_number: usize },
}

/// Number of tabs at the front of `s`.
pub open spec fn leading_tabs(s: Seq<char>) -> nat
    decreases s.len(),
{
    if s.len() > 0 && s[0] == '\t' {
        1 + leading_tabs(s.drop_first())
    } else {
        0
    }
}

/// The part of a line in front of its comment.
pub open spec fn strip_comment(raw: Seq<char>) -> Seq<char> {
    raw.take(first_index(raw, '#'))
}

/// What the `number`th line of a text says, if it says anything.
pub open spec fn logical_line(raw: Seq<char>, number: nat) -> Option<Line> {
    let body = strip_comment(raw);
    if is_blank(body) {
        None
    } else {
        Some(Line { number, indent: leading_tabs(body), text: trim(body) })
    }
}

/// The logical lines among the given raw lines, numbered by position.
pub open spec fn logical_lines(raws: Seq<Seq<char>>) -> Seq<Line>
    decreases raws.len(),
{
    if raws.len() == 0 {
        Seq::empty()
    } else {
        let front = logical_lines(raws.drop_last());
        match logical_line(raws.last(), raws.len()) {
            Some(line) => front.push(line),
            None => front,
        }
    }
}

/// The logical lines of a text.
pub open spec fn document_lines(text: Seq<char>) -> Seq<Line> {
    logical_lines(split(text, '\n'))
}

pub open spec fn lines_view(lines: Seq<TextLine>) -> Seq<Line> {
    Seq::new(lines.len(), |i: int| lines[i]@)
}

/// Line `k` has no line above it that could be its parent.
pub open spec fn indent_fault(lines: Seq<Line>, k: int) -> bool {
    if k == 0 {
        lines[0].indent > 0
    } else {
        lines[k].indent > lines[k - 1].indent + 1
    }
}

/// The first line is not indented, and no line is more than one level deeper
/// than the line above it.
pub open spec fn well_indented(lines: Seq<Line>) -> bool {
    forall|k: int| 0 <= k < lines.len() ==> !indent_fault(lines, k)
}

/// Line `k` is the first that breaks the indentation.
pub open spec fn first_indent_fault(lines: Seq<Line>, k: int) -> bool {
    &&& 0 <= k < lines.len()
    &&& indent_fault(lines, k)
    &&& forall|j: int| 0 <= j < k ==> !indent_fault(lines, j)
}

impl IndentBlock {
    /// The line this block stands for when it sits at `depth`.
    pub open spec fn line(&self, depth: nat) -> Line {
        Line { number: self.line_number as nat, indent: depth, text: self.text@ }
    }
}

/// The lines of a forest of blocks, parents before children, when its roots
/// sit at `depth`.
pub open spec fn flatten(blocks: Seq<IndentBlock>, depth: nat) -> Seq<Line>
    decreases blocks,
{
    if blocks.len() == 0 {
        Seq::empty()
    } else {
        flatten(blocks.drop_last(), depth) + seq![blocks.last().line(depth)] + flatten(
            blocks.last().children@,
            depth + 1,
        )
    }
}

/// Every block's `deep_count` is the number of blocks below it.
pub open spec fn counted(blocks: Seq<IndentBlock>, depth: nat) -> bool
    decreases blocks,
{
    blocks.len() > 0 ==> {
        &&& counted(blocks.drop_last(), depth)
        &&& counted(blocks.last().children@, depth + 1)
        &&& blocks.last().deep_count == flatten(blocks.last().children@, depth + 1).len()
    }
}

/// A line as it is written out: tabs, text, line feed.
pub open spec fn render_line(line: Line) -> Seq<char> {
    tabs(line.indent) + line.text + seq!['\n']
}

/// The lines written out one after the other.
pub open spec fn render(lines: Seq<Line>) -> Seq<char>
    decreases lines.len(),
{
    if lines.len() == 0 {
        Seq::empty()
    } else {
        render(lines.drop_last()) + render_line(lines.last())
    }
}

pub proof fn lemma_leading_tabs(s: Seq<char>)
    ensures
        leading_tabs(s) <= s.len(),
        forall|j: int| 0 <= j < leading_tabs(s) ==> s[j] == '\t',
        leading_tabs(s) < s.len() ==> s[leading_tabs(s) as int] != '\t',
    decreases s.len(),
{
    if s.len() > 0 && s[0] == '\t' {
        lemma_leading_tabs(s.drop_first());
        assert forall|j: int| 0 <= j < leading_tabs(s) implies s[j] == '\t' by {
            if j > 0 {
                assert(s.drop_first()[j - 1] == s[j]);
            }
        }
    }
}

pub proof fn lemma_leading_tabs_is(s: Seq<char>, k: int)
    requires
        0 <= k <= s.len(),
        forall|j: int| 0 <= j < k ==> s[j] == '\t',
        k < s.len() ==> s[k] != '\t',
    ensures
        leading_tabs(s) == k,
{
    lemma_leading_tabs(s);
    let f = leading_tabs(s) as int;
    if f < k {
    } else if f > k {
    }
}

/// A line that is not blank has fewer tabs in front than it has characters.
pub proof fn lemma_tabs_of_nonblank(s: Seq<char>)
    requires
        !is_blank(s),
    ensures
        leading_tabs(s) < s.len(),
{
    lemma_leading_tabs(s);
    if leading_tabs(s) == s.len() {
        assert forall|j: int| 0 <= j < s.len() implies is_whitespace(s[j]) by {
            assert(s[j] == '\t');
        }
        lemma_leading_whitespace_is(s, s.len() as int);
        assert(trim(s).len() == 0);
    }
}

pub proof fn lemma_render_concat(a: Seq<Line>, b: Seq<Line>)
    ensures
        render(a + b) == render(a) + render(b),
    decreases b.len(),
{
    if b.len() == 0 {
        assert(a + b == a);
    } else {
        lemma_render_concat(a, b.drop_last());
        assert((a + b).drop_last() == a + b.drop_last());
        assert((a + b).last() == b.last());
    }
}

pub proof fn lemma_flatten_push(blocks: Seq<IndentBlock>, block: IndentBlock, depth: nat)
    ensures
        flatten(blocks.push(block), depth) == flatten(blocks, depth) + seq![block.line(depth)]
            + flatten(block.children@, depth + 1),
        counted(blocks.push(block), depth) == (counted(blocks, depth) && counted(
            block.children@,
            depth + 1,
        ) && block.deep_count == flatten(block.children@, depth + 1).len()),
{
    assert(blocks.push(block).drop_last() == blocks);
    assert(blocks.push(block).last() == block);
}

/// Number of tabs at the front of the line.
pub fn get_indent_level(line: &str) -> (level: usize)
    ensures
        level == leading_tabs(line@),
{
    let chars = chars_of(line);
    count_tabs(&chars)
}

fn count_tabs(s: &Vec<char>) -> (level: usize)
    ensures
        level == leading_tabs(s@),
        level <= s.len(),
{
    let mut i: usize = 0;
    while i < s.len() && s[i] == '\t'
        invariant
            i <= s.len(),
            forall|j: int| 0 <= j < i ==> s@[j] == '\t',
        decreases s.len() - i,
    {
        i += 1;
    }
    proof {
        lemma_leading_tabs_is(s@, i as int);
    }
    i
}

/// Reads the logical lines of a text.
pub fn parse_module(text: &str) -> (lines: Vec<TextLine>)
    ensures
        lines_view(lines@) == document_lines(text@),
        forall|k: int| 0 <= k < lines.len() ==> (#[trigger] lines[k]).indent_level < usize::MAX,
{
    let chars = chars_of(text);
    let raws = split_chars(&chars, '\n');
    let ghost raw_views = vec_views(raws@);
    let mut lines: Vec<TextLine> = Vec::new();
    let mut i: usize = 0;
    while i < raws.len()
        invariant
            i <= raws.len(),
            raw_views == vec_views(raws@),
            lines_view(lines@) == logical_lines(raw_views.take(i as int)),
            forall|k: int| 0 <= k < lines.len() ==> (#[trigger] lines[k]).indent_level < usize::MAX,
        decreases raws.len() - i,
    {
        let raw = &raws[i];
        let cut = find_char(raw, '#');
        let body = slice_of(raw, 0, cut);
        let ghost front = raw_views.take(i as int);
        let ghost next = raw_views.take(i + 1);
        proof {
            assert(next.drop_last() == front);
            assert(next.last() == raw@);
            assert(body@ == strip_comment(raw@));
        }
        if !is_blank_chars(&body) {
            let indent = count_tabs(&body);
            let trimmed = trim_chars(&body);
            let line = TextLine {
                text: string_of(&trimmed),
                line_number: i + 1,
                indent_level: indent,
            };
            proof {
                lemma_tabs_of_nonblank(body@);
                assert(logical_line(raw@, (i + 1) as nat) == Some(line@));
                assert(lines_view(lines@.push(line)) == lines_view(lines@).push(line@));
            }
            lines.push(line);
        }
        i += 1;
    }
    proof {
        assert(raw_views.take(raws.len() as int) == raw_views);
    }
    lines
}

/// Index of the first line that breaks the indentation, if any does.
fn find_indent_fault(lines: &Vec<TextLine>) -> (r: Option<usize>)
    ensures
        match r {
            Some(k) => first_indent_fault(lines_view(lines@), k as int),
            None => well_indented(lines_view(lines@)),
        },
{
    let ghost view = lines_view(lines@);
    let mut k: usize = 0;
    while k < lines.len()
        invariant
            k <= lines.len(),
            view == lines_view(lines@),
            forall|j: int| 0 <= j < k ==> !indent_fault(view, j),
        decreases lines.len() - k,
    {
        let fault = if k == 0 {
            lines[0].indent_level > 0
        } else {
            lines[k - 1].indent_level < lines[k].indent_level && lines[k].indent_level
                - lines[k - 1].indent_level > 1
        };
        proof {
            assert(view[k as int] == lines[k as int]@);
            if k > 0 {
                assert(view[k - 1] == lines[k - 1]@);
            }
            assert(fault == indent_fault(view, k as int));
        }
        if fault {
            return Some(k);
        }
        k += 1;
    }
    None
}

/// Reads the blocks at `depth` that start at line `start`, with all that is
/// nested in them, up to the first line that lies outside that level.
fn parse_children(lines: &Vec<TextLine>, start: usize, depth: usize) -> (r: (
    Vec<IndentBlock>,
    usize,
))
    requires
        start <= lines.len(),
        well_indented(lines_view(lines@)),
        forall|k: int| 0 <= k < lines.len() ==> (#[trigger] lines[k]).indent_level < usize::MAX,
        start < lines.len() ==> lines[start as int].indent_level <= depth,
    ensures
        start <= r.1 <= lines.len(),
        flatten(r.0@, depth as nat) == lines_view(lines@).subrange(start as int, r.1 as int),
        counted(r.0@, depth as nat),
        r.1 < lines.len() ==> lines[r.1 as int].indent_level < depth,
    decreases lines.len() - start,
{
    let ghost view = lines_view(lines@);
    let mut result: Vec<IndentBlock> = Vec::new();
    let mut i: usize = start;
    proof {
        assert(view.subrange(start as int, start as int) == Seq::<Line>::empty());
    }
    while i < lines.len() && lines[i].indent_level == depth
        invariant
            start <= i <= lines.len(),
            view == lines_view(lines@),
            well_indented(view),
            forall|k: int| 0 <= k < lines.len() ==> (#[trigger] lines[k]).indent_level < usize::MAX,
            i < lines.len() ==> lines[i as int].indent_level <= depth,
            flatten(result@, depth as nat) == view.subrange(start as int, i as int),
            counted(result@, depth as nat),
        decreases lines.len() - i,
    {
        proof {
            assert(lines[i as int].indent_level < usize::MAX);
            if i + 1 < lines.len() {
                assert(!indent_fault(view, i + 1));
                assert(view[i as int] == lines[i as int]@);
                assert(view[i + 1] == lines[i + 1]@);
            }
        }
        let (children, next) = parse_children(lines, i + 1, depth + 1);
        let block = IndentBlock {
            text: lines[i].text.clone(),
            children,
            deep_count: next - (i + 1),
            line_number: lines[i].line_number,
        };
        proof {
            lemma_flatten_push(result@, block, depth as nat);
            assert(block.line(depth as nat) == view[i as int]);
            assert(view.subrange(start as int, i as int) + seq![view[i as int]] + view.subrange(
                i + 1,
                next as int,
            ) == view.subrange(start as int, next as int));
        }
        result.push(block);
        i = next;
    }
    (result, i)
}

impl IndentBlock {
    /// Reads a text into a tree. The root stands for the whole text and has no
    /// line of its own; its children are the lines that are not indented.
    pub fn parse_text(text: &str) -> (r: Result<IndentBlock, ParseError>)
        ensures
            match r {
                Ok(root) => {
                    &&& document_lines(text@).len() > 0
                    &&& well_indented(document_lines(text@))
                    &&& root.text@ == Seq::<char>::empty()
                    &&& root.line_number == 0
                    &&& flatten(root.children@, 0) == document_lines(text@)
                    &&& root.deep_count == document_lines(text@).len()
                    &&& counted(root.children@, 0)
                },
                Err(ParseError::Empty) => document_lines(text@).len() == 0,
                Err(ParseError::Indentation { line_number }) => exists|k: int|
                    first_indent_fault(document_lines(text@), k) && document_lines(
                        text@,
                    )[k].number == line_number,
                Err(_) => false,
            },
    {
        let lines = parse_module(text);
        let ghost view = lines_view(lines@);
        if lines.len() == 0 {
            return Err(ParseError::Empty);
        }
        match find_indent_fault(&lines) {
            Some(k) => {
                proof {
                    assert(view[k as int] == lines[k as int]@);
                }
                Err(ParseError::Indentation { line_number: lines[k].line_number })
            },
            None => {
                proof {
                    assert(!indent_fault(view, 0));
                    assert(view[0] == lines[0]@);
                }
                let (children, next) = parse_children(&lines, 0, 0);
                proof {
                    if next < lines.len() {
                        assert(false);
                    }
                    assert(view.subrange(0, lines.len() as int) == view);
                }
                Ok(
                    IndentBlock {
                        text: String::new(),
                        children,
                        deep_count: lines.len(),
                        line_number: 0,
                    },
                )
            },
        }
    }

    /// Writes the blocks below `self` into `result`, each line behind the
    /// tabs in `indent`.
    fn children_to_string(&self, result: &mut Vec<char>, indent: &mut Vec<char>)
        requires
            old(indent)@ == tabs(old(indent)@.len()),
        ensures
            final(indent)@ == old(indent)@,
            final(result)@ == old(result)@ + render(
                flatten(self.children@, old(indent)@.len()),
            ),
        decreases self,
    {
        let ghost depth = indent@.len();
        let mut k: usize = 0;
        proof {
            assert(self.children@.take(0) == Seq::<IndentBlock>::empty());
        }
        while k < self.children.len()
            invariant
                k <= self.children.len(),
                indent@ == old(indent)@,
                indent@ == tabs(depth),
                depth == indent@.len(),
                result@ == old(result)@ + render(flatten(self.children@.take(k as int), depth)),
            decreases self.children.len() - k,
        {
            let child = &self.children[k];
            let ghost before = result@;
            let mut j: usize = 0;
            while j < indent.len()
                invariant
                    j <= indent.len(),
                    result@ == before + indent@.take(j as int),
                decreases indent.len() - j,
            {
                result.push(indent[j]);
                j += 1;
            }
            let text = chars_of(child.text.as_str());
            let mut j: usize = 0;
            while j < text.len()
                invariant
                    j <= text.len(),
                    result@ == before + indent@ + text@.take(j as int),
                decreases text.len() - j,
            {
                result.push(text[j]);
                j += 1;
            }
            result.push('\n');
            indent.push('\t');
            proof {
                assert(indent@ == tabs(depth + 1));
                assert(text@.take(text.len() as int) == text@);
                assert(result@ == before + render_line(child.line(depth)));
            }
            child.children_to_string(result, indent);
            indent.pop();
            proof {
                assert(indent@ == tabs(depth));
                let done = self.children@.take(k as int);
                let next = self.children@.take(k + 1);
                assert(next == done.push(*child));
                lemma_flatten_push(done, *child, depth);
                let a = flatten(done, depth);
                let b = seq![child.line(depth)];
                let c = flatten(child.children@, depth + 1);
                lemma_render_concat(a + b, c);
                lemma_render_concat(a, b);
                assert(b.drop_last() == Seq::<Line>::empty());
                assert(render(b.drop_last()) == Seq::<char>::empty());
                assert(render(b) == render_line(child.line(depth)));
            }
            k += 1;
        }
        proof {
            assert(self.children@.take(self.children.len() as int) == self.children@);
        }
    }

    /// The tree below `self` as text: one line per block, a tab per level.
    /// White space at either end of the whole is left out, so the text does
    /// not end in a line feed.
    pub fn to_string(&self) -> (out: String)
        ensures
            out@ == trim(render(flatten(self.children@, 0))),
    {
        let mut result: Vec<char> = Vec::new();
        let mut indent: Vec<char> = Vec::new();
        proof {
            assert(indent@ == tabs(0));
        }
        self.children_to_string(&mut result, &mut indent);
        let trimmed = trim_chars(&result);
        string_of(&trimmed)
    }
}

/// A line in the form in which it is written out: tabs, then text that
/// neither starts nor ends with white space, and no comment.
pub open spec fn canonical_line(raw: Seq<char>) -> bool {
    &&& first_index(raw, '#') == raw.len()
    &&& !is_blank(raw)
    &&& raw == tabs(leading_tabs(raw)) + trim(raw)
}

/// A text in the form in which it is written out: every line is canonical,
/// and the indentation is in order.
pub open spec fn canonical(text: Seq<char>) -> bool {
    &&& forall|i: int|
        0 <= i < split(text, '\n').len() ==> canonical_line(#[trigger] split(text, '\n')[i])
    &&& well_indented(document_lines(text))
}

proof fn lemma_canonical_lines(raws: Seq<Seq<char>>)
    requires
        forall|i: int| 0 <= i < raws.len() ==> canonical_line(#[trigger] raws[i]),
    ensures
        logical_lines(raws).len() == raws.len(),
        forall|i: int|
            0 <= i < raws.len() ==> (#[trigger] logical_lines(raws)[i]).indent == leading_tabs(
                raws[i],
            ),
        render(logical_lines(raws)) == lines_text(raws),
    decreases raws.len(),
{
    if raws.len() > 0 {
        let front = raws.drop_last();
        let raw = raws.last();
        assert forall|i: int| 0 <= i < front.len() implies canonical_line(#[trigger] front[i]) by {
            assert(front[i] == raws[i]);
        }
        lemma_canonical_lines(front);
        assert(canonical_line(raws[raws.len() - 1]));
        assert(strip_comment(raw) == raw);
        let line = Line { number: raws.len(), indent: leading_tabs(raw), text: trim(raw) };
        assert(logical_lines(raws) == logical_lines(front).push(line));
        assert(logical_lines(raws).drop_last() == logical_lines(front));
        assert(render_line(line) == raw + seq!['\n']);
        assert forall|i: int| 0 <= i < raws.len() implies (#[trigger] logical_lines(
            raws,
        )[i]).indent == leading_tabs(raws[i]) by {
            if i < front.len() {
                assert(logical_lines(raws)[i] == logical_lines(front)[i]);
                assert(front[i] == raws[i]);
            }
        }
    }
}

/// Reading a canonical text and writing it out again gives the same text:
/// the text has lines, its indentation is in order, and its lines written
/// out and trimmed are the text itself.
pub proof fn lemma_round_trip(text: Seq<char>)
    requires
        canonical(text),
    ensures
        document_lines(text).len() > 0,
        well_indented(document_lines(text)),
        trim(render(document_lines(text))) == text,
{
    let raws = split(text, '\n');
    lemma_join_split(text, '\n');
    lemma_canonical_lines(raws);
    lemma_lines_text_is_join(raws);
    lemma_join_ends(raws, '\n');
    let lines = document_lines(text);
    // The first line is not indented, so that the text starts with what
    // trimming leaves of that line.
    assert(!indent_fault(lines, 0));
    assert(lines[0].indent == leading_tabs(raws[0]));
    let first = raws[0];
    assert(canonical_line(first));
    assert(tabs(0) + trim(first) == trim(first));
    lemma_trim_is_trimmed(first);
    // The last line ends with what trimming leaves of it.
    let last = raws.last();
    assert(canonical_line(raws[raws.len() - 1]));
    lemma_trim_is_trimmed(last);
    assert(last.last() == trim(last).last());
    lemma_trim_line_feed(text);
}

} // verus!
