//! Id allocation: the first pass over a module text, which gives an id to
//! every node header that has none.
//!
//! A node header is a line that, in front of its comment, is not blank and
//! does not start with a tab. Its first word is the type of the node, its
//! second word the id. The ids that are made up read `id` and a number. The
//! numbers go on from the highest number in an id of that form that a header
//! of the text already has as its second word; they can be of any length, so
//! that a made-up id is never one that the text has already. A made-up id is
//! written behind the header, in front of its comment.

use vstd::prelude::*;
use crate::number::{
    all_digits, canonical_digits, decimal, digits_exceed, digits_value, increment, is_digit,
    is_digit_char, lemma_decimal_value, parse_u32_chars,
};
use crate::parse::{document_lines, flatten, logical_lines, strip_comment, IndentBlock, Line};
use crate::parse_nodes::header_name;
use crate::text::{
    append_chars, chars_of, find_char, first_index, is_blank,
    is_blank_chars, is_whitespace, is_whitespace_char, join, leading_whitespace,
    lemma_first_index_bounds, lemma_first_index_is, lemma_join_push, lemma_leading_whitespace,
    lemma_leading_whitespace_is, lemma_lines_text_is_join, lemma_split_join, lemma_split_pieces,
    lemma_trailing_whitespace, lemma_trailing_whitespace_is, lemma_trim_bounds,
    lemma_trim_end_concat, lemma_trim_end_idempotent, lemma_trim_end_line_feed,
    lemma_trim_is_trimmed, lemma_trim_of_trim_end, lemma_trimmed_not_blank, lines_text, slice_of,
    split, split_chars, string_of, string_views, trailing_whitespace, trim, trim_chars, trim_end,
    trim_end_chars, vec_views,
};

verus! {

/// What a line says as a node header: the line in front of its comment,
/// trimmed. Lines that say nothing there or start with a tab are no headers.
pub open spec fn header_text(raw: Seq<char>) -> Option<Seq<char>> {
    let body = strip_comment(raw);
    if !is_blank(body) && body[0] != '\t' {
        Some(trim(body))
    } else {
        None
    }
}

/// The id on a header line, as allocation reads it: the second word of the
/// header, which is the first word behind its first space.
pub open spec fn header_id(raw: Seq<char>) -> Option<Seq<char>> {
    match header_text(raw) {
        Some(header) => match header_name(header) {
            Some(rest) => Some(rest.take(first_index(rest, ' '))),
            None => None,
        },
        None => None,
    }
}

/// The ids on the header lines among `lines`, in order.
pub open spec fn collect_ids(lines: Seq<Seq<char>>) -> Seq<Seq<char>>
    decreases lines.len(),
{
    if lines.len() == 0 {
        Seq::empty()
    } else {
        let front = collect_ids(lines.drop_last());
        match header_id(lines.last()) {
            Some(id) => front.push(id),
            None => front,
        }
    }
}

/// The ids that the headers of a module text carry.
pub open spec fn node_ids(text: Seq<char>) -> Seq<Seq<char>> {
    collect_ids(split(text, '\n'))
}

/// The text of the id with the given number: `id` and the number in decimal.
pub open spec fn id_text(number: nat) -> Seq<char> {
    seq!['i', 'd'] + decimal(number)
}

/// The number in an id of the form `id<N>`: `id` and then digits only, at
/// least one. Ids of any other form have none.
pub open spec fn id_number(id: Seq<char>) -> Option<nat> {
    if id.len() >= 3 && id[0] == 'i' && id[1] == 'd' && all_digits(id.skip(2)) {
        Some(digits_value(id.skip(2)))
    } else {
        None
    }
}

/// The largest number in any of the ids, 0 if none has a number.
pub open spec fn highest_id(ids: Seq<Seq<char>>) -> nat
    decreases ids.len(),
{
    if ids.len() == 0 {
        0
    } else {
        let rest = highest_id(ids.drop_last());
        match id_number(ids.last()) {
            Some(n) => if n > rest {
                n
            } else {
                rest
            },
            None => rest,
        }
    }
}

/// The largest number in any of the ids that fits 32 bits, 0 if none has
/// such a number.
pub open spec fn highest_small_id(ids: Seq<Seq<char>>) -> nat
    decreases ids.len(),
{
    if ids.len() == 0 {
        0
    } else {
        let rest = highest_small_id(ids.drop_last());
        match id_number(ids.last()) {
            Some(n) => if n > rest && n <= u32::MAX {
                n
            } else {
                rest
            },
            None => rest,
        }
    }
}

/// A header line without an id.
pub open spec fn needs_id(raw: Seq<char>) -> bool {
    header_text(raw) matches Some(header) && header_name(header) is None
}

/// Number of ids that allocation makes up for the given lines.
pub open spec fn synthesized(raws: Seq<Seq<char>>) -> nat
    decreases raws.len(),
{
    if raws.len() == 0 {
        0
    } else if !is_blank(raws.last()) && needs_id(raws.last()) {
        synthesized(raws.drop_last()) + 1
    } else {
        synthesized(raws.drop_last())
    }
}

/// The id made up for a header: "id" and the number in decimal, after a space.
pub open spec fn id_suffix(number: nat) -> Seq<char> {
    seq![' '] + id_text(number)
}

/// Where a made-up id is written into a line: behind the last character in
/// front of the comment that is no white space.
pub open spec fn id_place(raw: Seq<char>) -> int {
    strip_comment(raw).len() - trailing_whitespace(strip_comment(raw))
}

/// The header with the id of the given number written into it.
pub open spec fn with_id(raw: Seq<char>, number: nat) -> Seq<char> {
    raw.take(id_place(raw)) + id_suffix(number) + raw.skip(id_place(raw))
}

/// The lines after allocation: blank lines are gone, and each header without
/// an id has got the next free number, counting up from `first`.
pub open spec fn allocated_lines(raws: Seq<Seq<char>>, first: nat) -> Seq<Seq<char>>
    decreases raws.len(),
{
    if raws.len() == 0 {
        Seq::empty()
    } else {
        let front = allocated_lines(raws.drop_last(), first);
        let line = raws.last();
        if is_blank(line) {
            front
        } else if needs_id(line) {
            front.push(with_id(line, first + synthesized(raws.drop_last())))
        } else {
            front.push(line)
        }
    }
}

/// A module text after id allocation: the lines that allocation leaves, one
/// below the other, without white space at the end of the text.
pub open spec fn allocate_ids(text: Seq<char>) -> Seq<char> {
    trim_end(lines_text(allocated_lines(split(text, '\n'), highest_id(node_ids(text)) + 1)))
}

/// The largest number in any of the ids is one of them, and none is larger.
pub proof fn lemma_highest_id(ids: Seq<Seq<char>>)
    ensures
        forall|k: int|
            0 <= k < ids.len() ==> (#[trigger] id_number(ids[k]) matches Some(n) ==> n
                <= highest_id(ids)),
        highest_id(ids) == 0 || exists|k: int|
            0 <= k < ids.len() && #[trigger] id_number(ids[k]) == Some(highest_id(ids)),
    decreases ids.len(),
{
    if ids.len() > 0 {
        let front = ids.drop_last();
        lemma_highest_id(front);
        assert forall|k: int| 0 <= k < ids.len() implies (#[trigger] id_number(ids[k]) matches Some(
            n,
        ) ==> n <= highest_id(ids)) by {
            if k < front.len() {
                assert(front[k] == ids[k]);
            }
        }
        if highest_id(ids) != 0 {
            if highest_id(ids) == highest_id(front) {
                let k = choose|k: int|
                    0 <= k < front.len() && #[trigger] id_number(front[k]) == Some(
                        highest_id(front),
                    );
                assert(front[k] == ids[k]);
                assert(id_number(ids[k]) == Some(highest_id(ids)));
            } else {
                assert(id_number(ids[ids.len() - 1]) == Some(highest_id(ids)));
            }
        }
    }
}

/// The id with a number reads as that number.
pub proof fn lemma_id_text_number(number: nat)
    ensures
        id_number(id_text(number)) == Some(number),
{
    lemma_decimal_value(number);
    assert(id_text(number).skip(2) == decimal(number));
}

/// An id that allocation makes up is new: where its number is above the
/// highest number in the ids of the text, none of those ids reads the same.
pub proof fn lemma_made_up_id_is_new(ids: Seq<Seq<char>>, number: nat)
    requires
        number > highest_id(ids),
    ensures
        forall|k: int| 0 <= k < ids.len() ==> #[trigger] ids[k] != id_text(number),
{
    lemma_highest_id(ids);
    lemma_id_text_number(number);
    assert forall|k: int| 0 <= k < ids.len() implies #[trigger] ids[k] != id_text(number) by {
        if ids[k] == id_text(number) {
            assert(id_number(ids[k]) == Some(number));
        }
    }
}

/// Ids that allocation makes up with different numbers read differently.
pub proof fn lemma_made_up_ids_differ(a: nat, b: nat)
    requires
        a != b,
    ensures
        id_text(a) != id_text(b),
{
    lemma_id_text_number(a);
    lemma_id_text_number(b);
}

/// The id of every header among the lines is among the ids collected.
proof fn lemma_collected(lines: Seq<Seq<char>>, i: int)
    requires
        0 <= i < lines.len(),
        header_id(lines[i]) is Some,
    ensures
        exists|k: int|
            0 <= k < collect_ids(lines).len() && Some(#[trigger] collect_ids(lines)[k])
                == header_id(lines[i]),
    decreases lines.len(),
{
    let front = lines.drop_last();
    let all = collect_ids(lines);
    if i == lines.len() - 1 {
        assert(Some(all[all.len() - 1]) == header_id(lines[i]));
    } else {
        lemma_collected(front, i);
        let k = choose|k: int|
            0 <= k < collect_ids(front).len() && Some(#[trigger] collect_ids(front)[k])
                == header_id(front[i]);
        assert(all[k] == collect_ids(front)[k]);
    }
}

/// No header of a text has an id that allocation makes up for the text:
/// neither as its second word nor as all that follows its type. `count`
/// says which of the made-up ids is meant, counting from 0.
pub proof fn lemma_allocation_ids_are_new(text: Seq<char>, i: int, count: nat)
    requires
        0 <= i < split(text, '\n').len(),
    ensures
        header_id(split(text, '\n')[i]) != Some(
            id_text(highest_id(node_ids(text)) + 1 + count),
        ),
        header_text(split(text, '\n')[i]) matches Some(header) ==> header_name(header) != Some(
            id_text(highest_id(node_ids(text)) + 1 + count),
        ),
{
    let lines = split(text, '\n');
    let number = highest_id(node_ids(text)) + 1 + count;
    let made_up = id_text(number);
    lemma_made_up_id_is_new(node_ids(text), number);
    if header_id(lines[i]) == Some(made_up) {
        lemma_collected(lines, i);
    }
    match header_text(lines[i]) {
        Some(header) => {
            if header_name(header) == Some(made_up) {
                crate::number::lemma_decimal_digits(number);
                assert forall|j: int| 0 <= j < made_up.len() implies made_up[j] != ' ' by {
                    if j >= 2 {
                        assert(made_up[j] == decimal(number)[j - 2]);
                        assert(is_digit(decimal(number)[j - 2]));
                    }
                }
                lemma_first_index_is(made_up, ' ', made_up.len() as int);
                assert(made_up.take(made_up.len() as int) == made_up);
                lemma_collected(lines, i);
            }
        },
        None => {},
    }
}

/// The header that a line holds, if it holds one.
fn header_of(raw: &Vec<char>) -> (r: Option<Vec<char>>)
    ensures
        match r {
            Some(header) => header_text(raw@) == Some(header@),
            None => header_text(raw@) is None,
        },
{
    let cut = find_char(raw, '#');
    let body = slice_of(raw, 0, cut);
    if is_blank_chars(&body) {
        return None;
    }
    proof {
        lemma_trim_is_trimmed(body@);
    }
    if body[0] == '\t' {
        None
    } else {
        Some(trim_chars(&body))
    }
}

/// Get all node ids in a module text.
pub fn get_all_node_ids(text: &str) -> (ids: Vec<String>)
    ensures
        string_views(ids@) == node_ids(text@),
{
    let chars = chars_of(text);
    let raws = split_chars(&chars, '\n');
    let ghost lines = vec_views(raws@);
    let mut ids: Vec<String> = Vec::new();
    let mut i: usize = 0;
    while i < raws.len()
        invariant
            i <= raws.len(),
            lines == vec_views(raws@),
            string_views(ids@) == collect_ids(lines.take(i as int)),
        decreases raws.len() - i,
    {
        proof {
            assert(lines[i as int] == raws[i as int]@);
            assert(lines.take(i + 1).drop_last() == lines.take(i as int));
            assert(lines.take(i + 1).last() == raws[i as int]@);
        }
        match header_of(&raws[i]) {
            Some(header) => {
                let at = find_char(&header, ' ');
                if at < header.len() {
                    let rest = trim_chars(&slice_of(&header, at + 1, header.len()));
                    let end = find_char(&rest, ' ');
                    let id = string_of(&slice_of(&rest, 0, end));
                    proof {
                        assert(string_views(ids@.push(id)) == string_views(ids@).push(id@));
                    }
                    ids.push(id);
                }
            },
            None => {},
        }
        i += 1;
    }
    proof {
        assert(lines.take(raws.len() as int) == lines);
    }
    ids
}

/// The digits of an id of the form `id<N>`.
fn id_digits(id: &Vec<char>) -> (r: Option<Vec<char>>)
    ensures
        match r {
            Some(digits) => all_digits(digits@) && id_number(id@) == Some(digits_value(digits@))
                && digits@ == id@.skip(2) && digits@.len() >= 1,
            None => id_number(id@) is None,
        },
{
    if id.len() < 3 || id[0] != 'i' || id[1] != 'd' {
        return None;
    }
    let mut i: usize = 2;
    while i < id.len()
        invariant
            2 <= i <= id.len(),
            forall|j: int| 2 <= j < i ==> is_digit(id@[j]),
        decreases id.len() - i,
    {
        if !is_digit_char(id[i]) {
            proof {
                assert(id@.skip(2)[i - 2] == id@[i as int]);
            }
            return None;
        }
        i += 1;
    }
    proof {
        assert forall|j: int| 0 <= j < id@.skip(2).len() implies is_digit(
            #[trigger] id@.skip(2)[j],
        ) by {
            assert(id@.skip(2)[j] == id@[j + 2]);
        }
    }
    Some(slice_of(id, 2, id.len()))
}

/// Get the highest number among ids of the form `id<N>`. Numbers that do
/// not fit 32 bits are left out here; id allocation counts them too.
pub fn get_highest_id(ids: Vec<String>) -> (max: u32)
    ensures
        max == highest_small_id(string_views(ids@)),
{
    let ghost views = string_views(ids@);
    let mut max: u32 = 0;
    let mut i: usize = 0;
    while i < ids.len()
        invariant
            i <= ids.len(),
            views == string_views(ids@),
            max == highest_small_id(views.take(i as int)),
        decreases ids.len() - i,
    {
        let id = chars_of(ids[i].as_str());
        proof {
            assert(views[i as int] == id@);
            assert(views.take(i + 1).drop_last() == views.take(i as int));
            assert(views.take(i + 1).last() == id@);
        }
        match id_digits(&id) {
            Some(digits) => {
                match parse_u32_chars(&digits) {
                    Some(number) => {
                        if number > max {
                            max = number;
                        }
                    },
                    None => {},
                }
            },
            None => {},
        }
        i += 1;
    }
    proof {
        assert(views.take(ids.len() as int) == views);
    }
    max
}

/// The highest number among ids of the form `id<N>`, as a string of digits.
fn highest_digits(ids: &Vec<String>) -> (best: Vec<char>)
    ensures
        all_digits(best@),
        digits_value(best@) == highest_id(string_views(ids@)),
{
    let ghost views = string_views(ids@);
    let mut best: Vec<char> = Vec::new();
    let mut i: usize = 0;
    proof {
        assert(views.take(0).len() == 0);
    }
    while i < ids.len()
        invariant
            i <= ids.len(),
            views == string_views(ids@),
            all_digits(best@),
            digits_value(best@) == highest_id(views.take(i as int)),
        decreases ids.len() - i,
    {
        let id = chars_of(ids[i].as_str());
        proof {
            assert(views[i as int] == id@);
            assert(views.take(i + 1).drop_last() == views.take(i as int));
            assert(views.take(i + 1).last() == id@);
        }
        match id_digits(&id) {
            Some(digits) => {
                if digits_exceed(&digits, &best) {
                    best = digits;
                }
            },
            None => {},
        }
        i += 1;
    }
    proof {
        assert(views.take(ids.len() as int) == views);
    }
    best
}

/// Gives an id to every node header that has none: `id` and a number, the
/// numbers counting up from one above the highest number in use.
pub fn initialize_nodes(text: &str) -> (out: String)
    ensures
        out@ == allocate_ids(text@),
{
    let ids = get_all_node_ids(text);
    let highest = highest_digits(&ids);
    let mut next = canonical_digits(&highest);
    let ghost base = highest_id(node_ids(text@)) + 1;
    proof {
        lemma_decimal_value(highest_id(node_ids(text@)));
    }
    increment(&mut next);
    let chars = chars_of(text);
    let raws = split_chars(&chars, '\n');
    let ghost views = vec_views(raws@);
    let mut result: Vec<char> = Vec::new();
    let mut i: usize = 0;
    while i < raws.len()
        invariant
            i <= raws.len(),
            views == vec_views(raws@),
            next@ == decimal(base + synthesized(views.take(i as int))),
            result@ == lines_text(allocated_lines(views.take(i as int), base)),
        decreases raws.len() - i,
    {
        let raw = &raws[i];
        let ghost front = views.take(i as int);
        proof {
            assert(views[i as int] == raw@);
            assert(views.take(i + 1).drop_last() == front);
            assert(views.take(i + 1).last() == raw@);
        }
        if !is_blank_chars(raw) {
            let ghost done = allocated_lines(front, base);
            let ghost before = result@;
            let lacks_id = match header_of(raw) {
                Some(header) => {
                    proof {
                        lemma_first_index_bounds(header@, ' ');
                    }
                    find_char(&header, ' ') == header.len()
                },
                None => false,
            };
            if lacks_id {
                let cut = find_char(raw, '#');
                let mut at: usize = cut;
                while at > 0 && is_whitespace_char(raw[at - 1])
                    invariant
                        at <= cut <= raw.len(),
                        forall|j: int| at <= j < cut ==> is_whitespace(raw@[j]),
                    decreases at,
                {
                    at -= 1;
                }
                proof {
                    let body = raw@.take(cut as int);
                    assert forall|j: int| body.len() - (cut - at) <= j < body.len() implies is_whitespace(
                        body[j],
                    ) by {
                        assert(body[j] == raw@[j]);
                    }
                    if at > 0 {
                        assert(body[at - 1] == raw@[at - 1]);
                    }
                    lemma_trailing_whitespace_is(body, cut - at);
                    assert(at == id_place(raw@));
                }
                let head = slice_of(raw, 0, at);
                let tail = slice_of(raw, at, raw.len());
                let marker = chars_of(" id");
                let ghost number = base + synthesized(front);
                proof {
                    reveal_strlit(" id");
                    assert(marker@ == seq![' ', 'i', 'd']);
                    assert(marker@ + next@ == id_suffix(number));
                    lemma_decimal_value(number);
                }
                append_chars(&mut result, &head);
                append_chars(&mut result, &marker);
                append_chars(&mut result, &next);
                append_chars(&mut result, &tail);
                proof {
                    let line = with_id(raw@, number);
                    assert(result@ == before + line);
                    assert(done.push(line).drop_last() == done);
                }
                increment(&mut next);
            } else {
                append_chars(&mut result, raw);
                proof {
                    assert(done.push(raw@).drop_last() == done);
                }
            }
            result.push('\n');
        }
        i += 1;
    }
    proof {
        assert(views.take(raws.len() as int) == views);
    }
    let trimmed = trim_end_chars(&result);
    string_of(&trimmed)
}

/// None of the lines is blank, and none is a node header without an id.
pub open spec fn identified(raws: Seq<Seq<char>>) -> bool {
    forall|i: int| 0 <= i < raws.len() ==> !is_blank(#[trigger] raws[i]) && !needs_id(raws[i])
}

proof fn lemma_identified_lines(raws: Seq<Seq<char>>, first: nat)
    requires
        identified(raws),
    ensures
        allocated_lines(raws, first) == raws,
    decreases raws.len(),
{
    if raws.len() > 0 {
        let front = raws.drop_last();
        assert forall|i: int| 0 <= i < front.len() implies !is_blank(#[trigger] front[i])
            && !needs_id(front[i]) by {
            assert(front[i] == raws[i]);
        }
        lemma_identified_lines(front, first);
        assert(!is_blank(raws[raws.len() - 1]));
        assert(front.push(raws.last()) == raws);
    }
}

/// Lines that are not blank, one below the other and trimmed at the end,
/// are the lines joined, the last of them trimmed at its end.
proof fn lemma_trim_end_lines(lines: Seq<Seq<char>>)
    requires
        lines.len() >= 1,
        !is_blank(lines.last()),
    ensures
        trim_end(lines_text(lines)) == join(lines.drop_last().push(trim_end(lines.last())), '\n'),
{
    let feed = seq!['\n'];
    let last = lines.last();
    let front = lines.drop_last();
    lemma_lines_text_is_join(lines);
    lemma_trim_end_line_feed(join(lines, '\n'));
    if front.len() == 0 {
        assert(lines == seq![last]);
        assert(join(lines, '\n') == last);
        assert(front.push(trim_end(last)) == seq![trim_end(last)]);
        assert(join(seq![trim_end(last)], '\n') == trim_end(last));
    } else {
        lemma_join_push(front, last, '\n');
        lemma_join_push(front, trim_end(last), '\n');
        assert(front.push(last) == lines);
        lemma_trim_end_concat(join(front, '\n') + feed, last);
    }
}

/// Trimming a line at its end leaves it the header that it is.
proof fn lemma_header_of_trimmed(line: Seq<char>)
    requires
        !is_blank(line),
    ensures
        header_text(trim_end(line)) == header_text(line),
        first_index(line, '\n') == line.len() ==> first_index(trim_end(line), '\n') == trim_end(
            line,
        ).len(),
{
    let short = trim_end(line);
    let cut = first_index(line, '#');
    lemma_first_index_bounds(line, '#');
    lemma_first_index_bounds(line, '\n');
    lemma_trailing_whitespace(line);
    lemma_trim_bounds(line);
    let kept = short.len() as int;
    assert forall|j: int| 0 <= j < kept implies short[j] == line[j] by {}
    if first_index(line, '\n') == line.len() {
        lemma_first_index_is(short, '\n', kept);
    }
    if cut < line.len() {
        assert(!is_whitespace(line[cut]));
        assert(cut < kept);
        lemma_first_index_is(short, '#', cut);
        assert(short.take(cut) == line.take(cut));
    } else {
        lemma_first_index_is(short, '#', kept);
        assert(short.take(kept) == short);
        assert(line.take(line.len() as int) == line);
        lemma_trim_of_trim_end(line);
        lemma_trimmed_not_blank(line);
    }
}

/// A header that has got an id needs none, and reads as before with the id
/// behind it.
proof fn lemma_with_id(raw: Seq<char>, number: nat)
    requires
        needs_id(raw),
    ensures
        header_text(with_id(raw, number)) == Some(trim(strip_comment(raw)) + id_suffix(number)),
        !needs_id(with_id(raw, number)),
        !is_blank(with_id(raw, number)),
        first_index(raw, '\n') == raw.len() ==> first_index(with_id(raw, number), '\n')
            == with_id(raw, number).len(),
{
    let body = strip_comment(raw);
    let cut = first_index(raw, '#');
    let suffix = id_suffix(number);
    let line = with_id(raw, number);
    let at = id_place(raw);
    lemma_first_index_bounds(raw, '#');
    lemma_first_index_bounds(raw, '\n');
    lemma_trim_bounds(body);
    lemma_leading_whitespace(body);
    lemma_trailing_whitespace(body);
    crate::number::lemma_decimal_digits(number);
    let lead = leading_whitespace(body) as int;
    let width = suffix.len() as int;
    assert(suffix[0] == ' ');
    assert forall|j: int| 0 <= j < width implies suffix[j] != '#' && suffix[j] != '\n' && (j > 0
        ==> !is_whitespace(suffix[j])) by {
        if j >= 3 {
            assert(suffix[j] == decimal(number)[j - 3]);
            assert(is_digit(decimal(number)[j - 3]));
        }
    }
    assert(line.len() == raw.len() + width);
    assert forall|j: int| 0 <= j < line.len() implies line[j] == (if j < at {
        raw[j]
    } else if j < at + width {
        suffix[j - at]
    } else {
        raw[j - width]
    }) by {}
    // The comment starts where it started, moved by the width of the id.
    assert forall|j: int| 0 <= j < cut + width implies line[j] != '#' by {
        if j < at {
            assert(raw[j] != '#');
        } else if j >= at + width {
            assert(raw[j - width] != '#');
        }
    }
    lemma_first_index_is(line, '#', cut + width);
    let written = strip_comment(line);
    assert(written == body.take(at) + suffix + body.skip(at));
    // White space stands in front of the header and behind the id as it
    // stood in front of and behind the header.
    assert forall|j: int| 0 <= j < lead implies is_whitespace(written[j]) by {
        assert(written[j] == body[j]);
    }
    assert(written[lead] == body[lead]);
    lemma_leading_whitespace_is(written, lead);
    assert forall|j: int| written.len() - (cut - at) <= j < written.len() implies is_whitespace(
        written[j],
    ) by {
        assert(written[j] == body[j - width]);
    }
    assert(written[at + width - 1] == suffix[width - 1]);
    lemma_trailing_whitespace_is(written, cut - at);
    crate::text::lemma_blank_iff(written);
    lemma_trim_bounds(written);
    let header = trim(body);
    assert(trim(written) == header + suffix);
    // The id stands behind the first space of the header.
    lemma_first_index_bounds(header, ' ');
    assert forall|j: int| 0 <= j < header.len() implies (header + suffix)[j] != ' ' by {
        assert((header + suffix)[j] == header[j]);
    }
    assert((header + suffix)[header.len() as int] == ' ');
    lemma_first_index_is(header + suffix, ' ', header.len() as int);
    crate::text::lemma_blank_iff(line);
    assert(line[lead] == raw[lead]);
    assert(!is_whitespace(line[lead]));
    if first_index(raw, '\n') == raw.len() {
        assert forall|j: int| 0 <= j < line.len() implies line[j] != '\n' by {
            if j < at {
                assert(raw[j] != '\n');
            } else if j >= at + width {
                assert(raw[j - width] != '\n');
            }
        }
        lemma_first_index_is(line, '\n', line.len() as int);
    }
}

/// The lines that allocation writes are not blank, hold no line feed, and
/// none of them is a header without an id.
proof fn lemma_allocated_lines(raws: Seq<Seq<char>>, first: nat)
    requires
        forall|i: int|
            0 <= i < raws.len() ==> first_index(#[trigger] raws[i], '\n') == raws[i].len(),
    ensures
        identified(allocated_lines(raws, first)),
        forall|i: int|
            0 <= i < allocated_lines(raws, first).len() ==> first_index(
                #[trigger] allocated_lines(raws, first)[i],
                '\n',
            ) == allocated_lines(raws, first)[i].len(),
    decreases raws.len(),
{
    if raws.len() > 0 {
        let front = raws.drop_last();
        let line = raws.last();
        assert forall|i: int| 0 <= i < front.len() implies first_index(#[trigger] front[i], '\n')
            == front[i].len() by {
            assert(front[i] == raws[i]);
        }
        lemma_allocated_lines(front, first);
        let done = allocated_lines(front, first);
        let all = allocated_lines(raws, first);
        assert(first_index(raws[raws.len() - 1], '\n') == line.len());
        if !is_blank(line) {
            let written = if needs_id(line) {
                with_id(line, first + synthesized(front))
            } else {
                line
            };
            if needs_id(line) {
                lemma_with_id(line, first + synthesized(front));
            }
            assert(all == done.push(written));
            assert forall|i: int| 0 <= i < all.len() implies !is_blank(#[trigger] all[i])
                && !needs_id(all[i]) && first_index(all[i], '\n') == all[i].len() by {
                if i < done.len() {
                    assert(all[i] == done[i]);
                }
            }
        }
    }
}

/// Allocation leaves a text as it is if the text has no white space at its
/// end, has no blank line, and every node header in it has an id.
pub proof fn lemma_identified_text_unchanged(text: Seq<char>)
    requires
        trim_end(text) == text,
        identified(split(text, '\n')),
    ensures
        allocate_ids(text) == text,
{
    let raws = split(text, '\n');
    let first = highest_id(node_ids(text)) + 1;
    lemma_identified_lines(raws, first);
    crate::text::lemma_join_split(text, '\n');
    lemma_lines_text_is_join(raws);
    lemma_trim_end_line_feed(text);
}

/// What allocation leaves of a text has no white space at its end; and it is
/// empty, or none of its lines is blank or a node header without an id.
pub proof fn lemma_allocated_text(text: Seq<char>)
    ensures
        trim_end(allocate_ids(text)) == allocate_ids(text),
        allocate_ids(text).len() == 0 || identified(split(allocate_ids(text), '\n')),
{
    let raws = split(text, '\n');
    let first = highest_id(node_ids(text)) + 1;
    let lines = allocated_lines(raws, first);
    let once = allocate_ids(text);
    lemma_split_pieces(text, '\n');
    lemma_allocated_lines(raws, first);
    lemma_trim_end_idempotent(lines_text(lines));
    if lines.len() == 0 {
        assert(lines_text(lines) == Seq::<char>::empty());
        assert(once.len() == 0);
    } else {
        let last = lines.last();
        let kept = lines.drop_last().push(trim_end(last));
        assert(!is_blank(lines[lines.len() - 1]));
        lemma_trim_end_lines(lines);
        lemma_header_of_trimmed(last);
        lemma_trimmed_not_blank(last);
        assert forall|i: int| 0 <= i < kept.len() implies !is_blank(#[trigger] kept[i])
            && !needs_id(kept[i]) && first_index(kept[i], '\n') == kept[i].len() by {
            if i < kept.len() - 1 {
                assert(kept[i] == lines[i]);
            } else {
                assert(!needs_id(lines[lines.len() - 1]));
            }
        }
        lemma_split_join(kept, '\n');
    }
}

/// Running id allocation on its own result changes nothing.
pub proof fn lemma_allocation_idempotent(text: Seq<char>)
    ensures
        allocate_ids(allocate_ids(text)) == allocate_ids(text),
{
    let once = allocate_ids(text);
    lemma_allocated_text(text);
    if once.len() == 0 {
        lemma_first_index_bounds(once, '\n');
        let again = split(once, '\n');
        assert(again == seq![once]);
        lemma_trim_is_trimmed(once);
        let next = highest_id(node_ids(once)) + 1;
        assert(again.drop_last() == Seq::<Seq<char>>::empty());
        assert(allocated_lines(Seq::<Seq<char>>::empty(), next) == Seq::<Seq<char>>::empty());
        assert(is_blank(again.last()));
        assert(allocated_lines(again, next) == Seq::<Seq<char>>::empty());
        assert(lines_text(Seq::<Seq<char>>::empty()) == Seq::<char>::empty());
    } else {
        lemma_identified_text_unchanged(once);
    }
}

/// Among lines none of which is a header without an id, every line that is
/// not indented holds an id.
proof fn lemma_identified_logical(raws: Seq<Seq<char>>)
    requires
        forall|i: int| 0 <= i < raws.len() ==> !needs_id(#[trigger] raws[i]),
    ensures
        forall|j: int|
            0 <= j < logical_lines(raws).len() && (#[trigger] logical_lines(raws)[j]).indent == 0
                ==> header_name(logical_lines(raws)[j].text) is Some,
    decreases raws.len(),
{
    if raws.len() > 0 {
        let front = raws.drop_last();
        let raw = raws.last();
        assert forall|i: int| 0 <= i < front.len() implies !needs_id(#[trigger] front[i]) by {
            assert(front[i] == raws[i]);
        }
        lemma_identified_logical(front);
        assert(!needs_id(raws[raws.len() - 1]));
        let body = strip_comment(raw);
        lemma_trim_is_trimmed(body);
        let all = logical_lines(raws);
        assert forall|j: int| 0 <= j < all.len() && (#[trigger] all[j]).indent == 0 implies header_name(
            all[j].text,
        ) is Some by {
            if j < logical_lines(front).len() {
                assert(all[j] == logical_lines(front)[j]);
            }
        }
    }
}

/// Every block of a forest stands for one of the forest's lines.
pub proof fn lemma_block_line(forest: Seq<IndentBlock>, k: int, depth: nat)
    requires
        0 <= k < forest.len(),
    ensures
        exists|i: int|
            0 <= i < flatten(forest, depth).len() && #[trigger] flatten(forest, depth)[i]
                == forest[k].line(depth),
    decreases forest.len(),
{
    let front = flatten(forest.drop_last(), depth);
    let all = flatten(forest, depth);
    if k == forest.len() - 1 {
        assert(all[front.len() as int] == forest[k].line(depth));
    } else {
        lemma_block_line(forest.drop_last(), k, depth);
        let i = choose|i: int|
            0 <= i < front.len() && #[trigger] front[i] == forest.drop_last()[k].line(depth);
        assert(all[i] == front[i]);
    }
}

/// After id allocation every node header has an id: in the tree of the
/// text's lines, the text of every block at the top holds one.
pub proof fn lemma_allocated_headers(text: Seq<char>, forest: Seq<IndentBlock>, k: int)
    requires
        flatten(forest, 0) == document_lines(allocate_ids(text)),
        0 <= k < forest.len(),
    ensures
        header_name(forest[k].text@) is Some,
{
    let once = allocate_ids(text);
    lemma_allocated_text(text);
    lemma_block_line(forest, k, 0);
    let lines = flatten(forest, 0);
    let i = choose|i: int| 0 <= i < lines.len() && #[trigger] lines[i] == forest[k].line(0);
    if once.len() == 0 {
        lemma_first_index_bounds(once, '\n');
        let raws = split(once, '\n');
        assert(raws == seq![once]);
        assert(raws.drop_last() == Seq::<Seq<char>>::empty());
        assert(logical_lines(Seq::<Seq<char>>::empty()) == Seq::<Line>::empty());
        lemma_trim_is_trimmed(strip_comment(once));
        assert(strip_comment(once).len() == 0);
        assert(logical_lines(raws).len() == 0);
    } else {
        lemma_identified_logical(split(once, '\n'));
        assert(lines[i].indent == 0);
    }
}

} // verus!
