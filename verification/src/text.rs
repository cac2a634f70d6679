//! Character-level helpers shared by the parsers.
//!
//! Every document is handled as a sequence of `char`s. The specification
//! functions here say what trimming, splitting and joining mean on such
//! sequences; the executable functions compute them on `Vec<char>`.

use vstd::prelude::*;

verus! {

/// `String::push` of the standard library: the character is appended to the
/// end of the string, and nothing else about the string changes.
pub assume_specification[ String::push ](s: &mut String, c: char)
    ensures
        final(s)@ == old(s)@.push(c),
;

/// White space as Unicode defines it (the `White_Space` property).
pub open spec fn is_whitespace(c: char) -> bool {
    let n = c as u32;
    ||| 0x09 <= n <= 0x0D
    ||| n == 0x20
    ||| n == 0x85
    ||| n == 0xA0
    ||| n == 0x1680
    ||| 0x2000 <= n <= 0x200A
    ||| n == 0x2028
    ||| n == 0x2029
    ||| n == 0x202F
    ||| n == 0x205F
    ||| n == 0x3000
}

/// Number of white-space characters at the front of `s`.
pub open spec fn leading_whitespace(s: Seq<char>) -> nat
    decreases s.len(),
{
    if s.len() > 0 && is_whitespace(s[0]) {
        1 + leading_whitespace(s.drop_first())
    } else {
        0
    }
}

/// Number of white-space characters at the back of `s`.
pub open spec fn trailing_whitespace(s: Seq<char>) -> nat
    decreases s.len(),
{
    if s.len() > 0 && is_whitespace(s.last()) {
        1 + trailing_whitespace(s.drop_last())
    } else {
        0
    }
}

pub open spec fn trim_start(s: Seq<char>) -> Seq<char> {
    s.skip(leading_whitespace(s) as int)
}

pub open spec fn trim_end(s: Seq<char>) -> Seq<char> {
    s.take(s.len() - trailing_whitespace(s))
}

/// `s` without the white space at either end.
pub open spec fn trim(s: Seq<char>) -> Seq<char> {
    trim_end(trim_start(s))
}

/// A line is blank when nothing is left of it after trimming.
pub open spec fn is_blank(s: Seq<char>) -> bool {
    trim(s).len() == 0
}

/// Index of the first `c` in `s`, or `s.len()` when there is none.
pub open spec fn first_index(s: Seq<char>, c: char) -> int
    decreases s.len(),
{
    if s.len() == 0 {
        0
    } else if s[0] == c {
        0
    } else {
        1 + first_index(s.drop_first(), c)
    }
}

/// The pieces of `s` between occurrences of `c`. There is always at least one
/// piece; an empty `s` gives one empty piece.
pub open spec fn split(s: Seq<char>, c: char) -> Seq<Seq<char>>
    decreases s.len(),
{
    let i = first_index(s, c);
    if 0 <= i < s.len() {
        seq![s.take(i)] + split(s.skip(i + 1), c)
    } else {
        seq![s]
    }
}

/// The pieces put together again with `c` between them.
pub open spec fn join(parts: Seq<Seq<char>>, c: char) -> Seq<char>
    decreases parts.len(),
{
    if parts.len() == 0 {
        Seq::empty()
    } else if parts.len() == 1 {
        parts[0]
    } else {
        parts[0] + seq![c] + join(parts.drop_first(), c)
    }
}

/// `n` tab characters.
pub open spec fn tabs(n: nat) -> Seq<char> {
    Seq::new(n, |i: int| '\t')
}

/// Views of a vector of strings.
pub open spec fn string_views(v: Seq<String>) -> Seq<Seq<char>> {
    Seq::new(v.len(), |i: int| v[i]@)
}

/// Views of a vector of character vectors.
pub open spec fn vec_views(v: Seq<Vec<char>>) -> Seq<Seq<char>> {
    Seq::new(v.len(), |i: int| v[i]@)
}

pub proof fn lemma_first_index_bounds(s: Seq<char>, c: char)
    ensures
        0 <= first_index(s, c) <= s.len(),
        first_index(s, c) < s.len() ==> s[first_index(s, c)] == c,
        forall|j: int| 0 <= j < first_index(s, c) ==> s[j] != c,
    decreases s.len(),
{
    if s.len() > 0 && s[0] != c {
        lemma_first_index_bounds(s.drop_first(), c);
        let k = first_index(s.drop_first(), c);
        assert forall|j: int| 0 <= j < first_index(s, c) implies s[j] != c by {
            if j > 0 {
                assert(s.drop_first()[j - 1] == s[j]);
            }
        }
    }
}

/// The position the scan stopped at is the first index.
pub proof fn lemma_first_index_is(s: Seq<char>, c: char, k: int)
    requires
        0 <= k <= s.len(),
        forall|j: int| 0 <= j < k ==> s[j] != c,
        k < s.len() ==> s[k] == c,
    ensures
        first_index(s, c) == k,
{
    lemma_first_index_bounds(s, c);
    let f = first_index(s, c);
    if f < k {
    } else if f > k {
    }
}

pub proof fn lemma_leading_whitespace(s: Seq<char>)
    ensures
        leading_whitespace(s) <= s.len(),
        forall|j: int| 0 <= j < leading_whitespace(s) ==> is_whitespace(s[j]),
        leading_whitespace(s) < s.len() ==> !is_whitespace(s[leading_whitespace(s) as int]),
    decreases s.len(),
{
    if s.len() > 0 && is_whitespace(s[0]) {
        lemma_leading_whitespace(s.drop_first());
        assert forall|j: int| 0 <= j < leading_whitespace(s) implies is_whitespace(s[j]) by {
            if j > 0 {
                assert(s.drop_first()[j - 1] == s[j]);
            }
        }
    }
}

pub proof fn lemma_leading_whitespace_is(s: Seq<char>, k: int)
    requires
        0 <= k <= s.len(),
        forall|j: int| 0 <= j < k ==> is_whitespace(s[j]),
        k < s.len() ==> !is_whitespace(s[k]),
    ensures
        leading_whitespace(s) == k,
{
    lemma_leading_whitespace(s);
    let f = leading_whitespace(s) as int;
    if f < k {
    } else if f > k {
    }
}

pub proof fn lemma_trailing_whitespace(s: Seq<char>)
    ensures
        trailing_whitespace(s) <= s.len(),
        forall|j: int| s.len() - trailing_whitespace(s) <= j < s.len() ==> is_whitespace(s[j]),
        trailing_whitespace(s) < s.len() ==> !is_whitespace(
            s[s.len() - trailing_whitespace(s) - 1],
        ),
    decreases s.len(),
{
    if s.len() > 0 && is_whitespace(s.last()) {
        lemma_trailing_whitespace(s.drop_last());
        assert forall|j: int|
            s.len() - trailing_whitespace(s) <= j < s.len() implies is_whitespace(s[j]) by {
            if j < s.len() - 1 {
                assert(s.drop_last()[j] == s[j]);
            }
        }
    }
}

pub proof fn lemma_trailing_whitespace_is(s: Seq<char>, k: int)
    requires
        0 <= k <= s.len(),
        forall|j: int| s.len() - k <= j < s.len() ==> is_whitespace(s[j]),
        k < s.len() ==> !is_whitespace(s[s.len() - k - 1]),
    ensures
        trailing_whitespace(s) == k,
{
    lemma_trailing_whitespace(s);
    let f = trailing_whitespace(s) as int;
    if f < k {
    } else if f > k {
    }
}

/// What trimming leaves has no white space at either end, and trimming it
/// again changes nothing.
pub proof fn lemma_trim_is_trimmed(s: Seq<char>)
    ensures
        trim(s).len() > 0 ==> !is_whitespace(trim(s)[0]) && !is_whitespace(trim(s).last()),
        trim(trim(s)) == trim(s),
        trim(s).len() <= s.len(),
{
    lemma_leading_whitespace(s);
    let a = trim_start(s);
    lemma_trailing_whitespace(a);
    let t = trim(s);
    if t.len() > 0 {
        assert(!is_whitespace(t.last()));
        assert(t[0] == a[0]);
        assert(!is_whitespace(t[0]));
        lemma_leading_whitespace_is(t, 0);
        lemma_trailing_whitespace_is(t, 0);
        assert(trim_start(t) == t);
        assert(trim(t) == t);
    } else {
        lemma_leading_whitespace_is(t, 0);
        lemma_trailing_whitespace_is(t, 0);
        assert(trim_start(t) == t);
        assert(trim(t) == t);
    }
}

/// Splitting and joining on the same character gives the text back.
pub proof fn lemma_join_split(s: Seq<char>, c: char)
    ensures
        join(split(s, c), c) == s,
        split(s, c).len() >= 1,
    decreases s.len(),
{
    lemma_first_index_bounds(s, c);
    let i = first_index(s, c);
    if 0 <= i < s.len() {
        let rest = s.skip(i + 1);
        lemma_join_split(rest, c);
        let parts = split(s, c);
        assert(parts.drop_first() == split(rest, c));
        assert(parts[0] == s.take(i));
        assert(s == s.take(i) + seq![c] + rest);
    } else {
        assert(split(s, c) == seq![s]);
    }
}

pub fn is_whitespace_char(c: char) -> (b: bool)
    ensures
        b == is_whitespace(c),
{
    let n: u32 = c as u32;
    (0x09 <= n && n <= 0x0D) || n == 0x20 || n == 0x85 || n == 0xA0 || n == 0x1680 || (0x2000 <= n
        && n <= 0x200A) || n == 0x2028 || n == 0x2029 || n == 0x202F || n == 0x205F || n == 0x3000
}

/// The characters of a string slice, in order.
pub fn chars_of(s: &str) -> (out: Vec<char>)
    ensures
        out@ == s@,
{
    let mut out: Vec<char> = Vec::new();
    for c in it: s.chars()
        invariant
            out@ == it.seq().take(it.index() as int),
    {
        out.push(c);
    }
    out
}

/// A string holding exactly the given characters.
pub fn string_of(chars: &Vec<char>) -> (out: String)
    ensures
        out@ == chars@,
{
    let mut out = String::new();
    let mut i: usize = 0;
    while i < chars.len()
        invariant
            i <= chars.len(),
            out@ == chars@.take(i as int),
        decreases chars.len() - i,
    {
        out.push(chars[i]);
        i += 1;
    }
    out
}

/// Copy of `s[from..to]`.
pub fn slice_of(s: &Vec<char>, from: usize, to: usize) -> (out: Vec<char>)
    requires
        from <= to <= s.len(),
    ensures
        out@ == s@.subrange(from as int, to as int),
{
    let mut out: Vec<char> = Vec::new();
    let mut i: usize = from;
    while i < to
        invariant
            from <= i <= to <= s.len(),
            out@ == s@.subrange(from as int, i as int),
        decreases to - i,
    {
        out.push(s[i]);
        i += 1;
    }
    out
}

/// Appends the characters of `tail` to `s`.
pub fn append_chars(s: &mut Vec<char>, tail: &Vec<char>)
    ensures
        final(s)@ == old(s)@ + tail@,
{
    let mut i: usize = 0;
    while i < tail.len()
        invariant
            i <= tail.len(),
            s@ == old(s)@ + tail@.take(i as int),
        decreases tail.len() - i,
    {
        s.push(tail[i]);
        i += 1;
    }
    assert(tail@.take(tail.len() as int) == tail@);
}

/// Whether two character vectors hold the same text.
pub fn chars_eq(a: &Vec<char>, b: &Vec<char>) -> (r: bool)
    ensures
        r == (a@ == b@),
{
    if a.len() != b.len() {
        return false;
    }
    let mut i: usize = 0;
    while i < a.len()
        invariant
            i <= a.len(),
            a.len() == b.len(),
            forall|j: int| 0 <= j < i ==> a@[j] == b@[j],
        decreases a.len() - i,
    {
        if a[i] != b[i] {
            return false;
        }
        i += 1;
    }
    assert(a@ =~= b@);
    true
}

/// Position of the first `c` in `s`, or `s.len()`.
pub fn find_char(s: &Vec<char>, c: char) -> (i: usize)
    ensures
        i == first_index(s@, c),
        i <= s.len(),
{
    let mut i: usize = 0;
    while i < s.len() && s[i] != c
        invariant
            i <= s.len(),
            forall|j: int| 0 <= j < i ==> s@[j] != c,
        decreases s.len() - i,
    {
        i += 1;
    }
    proof {
        lemma_first_index_is(s@, c, i as int);
    }
    i
}

/// `s` without the white space at either end.
pub fn trim_chars(s: &Vec<char>) -> (out: Vec<char>)
    ensures
        out@ == trim(s@),
{
    let mut start: usize = 0;
    while start < s.len() && is_whitespace_char(s[start])
        invariant
            start <= s.len(),
            forall|j: int| 0 <= j < start ==> is_whitespace(s@[j]),
        decreases s.len() - start,
    {
        start += 1;
    }
    proof {
        lemma_leading_whitespace_is(s@, start as int);
    }
    let mut end: usize = s.len();
    while end > start && is_whitespace_char(s[end - 1])
        invariant
            start <= end <= s.len(),
            forall|j: int| end <= j < s.len() ==> is_whitespace(s@[j]),
        decreases end,
    {
        end -= 1;
    }
    proof {
        let a = s@.skip(start as int);
        let k = s.len() - end;
        assert forall|j: int| a.len() - k <= j < a.len() implies is_whitespace(a[j]) by {
            assert(a[j] == s@[j + start]);
        }
        if k < a.len() {
            assert(a[a.len() - k - 1] == s@[end - 1]);
        }
        lemma_trailing_whitespace_is(a, k);
        assert(a.take(a.len() - k) == s@.subrange(start as int, end as int));
    }
    slice_of(s, start, end)
}

/// Whether nothing but white space is in `s`.
pub fn is_blank_chars(s: &Vec<char>) -> (b: bool)
    ensures
        b == is_blank(s@),
{
    let t = trim_chars(s);
    t.len() == 0
}

/// The pieces of `s` between occurrences of `c`.
pub fn split_chars(s: &Vec<char>, c: char) -> (parts: Vec<Vec<char>>)
    ensures
        vec_views(parts@) == split(s@, c),
        parts.len() >= 1,
{
    let mut parts: Vec<Vec<char>> = Vec::new();
    let mut start: usize = 0;
    let mut done = false;
    proof {
        assert(s@.skip(0) == s@);
        assert(vec_views(parts@) + split(s@, c) == split(s@, c));
    }
    while !done
        invariant
            start <= s.len(),
            !done ==> split(s@, c) == vec_views(parts@) + split(s@.skip(start as int), c),
            done ==> split(s@, c) == vec_views(parts@) && parts.len() >= 1,
        decreases s.len() - start + (if done { 0int } else { 1int }),
    {
        let mut i: usize = start;
        while i < s.len() && s[i] != c
            invariant
                start <= i <= s.len(),
                forall|j: int| start <= j < i ==> s@[j] != c,
            decreases s.len() - i,
        {
            i += 1;
        }
        let piece = slice_of(s, start, i);
        proof {
            let rest = s@.skip(start as int);
            assert forall|j: int| 0 <= j < i - start implies rest[j] != c by {
                assert(rest[j] == s@[j + start]);
            }
            if i < s.len() {
                assert(rest[i - start] == s@[i as int]);
            }
            lemma_first_index_is(rest, c, i - start);
            assert(rest.take(i - start) == piece@);
            let old_views = vec_views(parts@);
            let new_views = vec_views(parts@.push(piece));
            assert(new_views == old_views + seq![piece@]);
            if i < s.len() {
                assert(rest.skip(i - start + 1) == s@.skip(i + 1));
                assert(split(rest, c) == seq![piece@] + split(s@.skip(i + 1), c));
            } else {
                assert(rest.take(i - start) == rest);
                assert(split(rest, c) == seq![rest]);
            }
        }
        parts.push(piece);
        if i < s.len() {
            start = i + 1;
        } else {
            done = true;
        }
    }
    parts
}

/// Whether `a` holds the text `b`.
pub fn chars_are(a: &Vec<char>, b: &str) -> (r: bool)
    ensures
        r == (a@ == b@),
{
    let other = chars_of(b);
    chars_eq(a, &other)
}

/// Whether the two strings hold the same text.
pub fn same_text(a: &str, b: &str) -> (r: bool)
    ensures
        r == (a@ == b@),
{
    let x = chars_of(a);
    let y = chars_of(b);
    chars_eq(&x, &y)
}

/// The lines one after the other, each ended by a line feed.
pub open spec fn lines_text(lines: Seq<Seq<char>>) -> Seq<char>
    decreases lines.len(),
{
    if lines.len() == 0 {
        Seq::empty()
    } else {
        lines_text(lines.drop_last()) + lines.last() + seq!['\n']
    }
}

/// Joining one more piece adds the separator and the piece.
pub proof fn lemma_join_push(parts: Seq<Seq<char>>, last: Seq<char>, c: char)
    requires
        parts.len() >= 1,
    ensures
        join(parts.push(last), c) == join(parts, c) + seq![c] + last,
    decreases parts.len(),
{
    let longer = parts.push(last);
    assert(longer[0] == parts[0]);
    if parts.len() == 1 {
        assert(longer.drop_first() == seq![last]);
        assert(join(seq![last], c) == last);
    } else {
        lemma_join_push(parts.drop_first(), last, c);
        assert(longer.drop_first() == parts.drop_first().push(last));
    }
}

/// Lines ended by line feeds are the lines joined by line feeds, with one
/// more line feed at the end.
pub proof fn lemma_lines_text_is_join(lines: Seq<Seq<char>>)
    requires
        lines.len() >= 1,
    ensures
        lines_text(lines) == join(lines, '\n') + seq!['\n'],
    decreases lines.len(),
{
    let front = lines.drop_last();
    if front.len() == 0 {
        assert(lines_text(front) == Seq::<char>::empty());
        assert(lines == seq![lines[0]]);
    } else {
        lemma_lines_text_is_join(front);
        lemma_join_push(front, lines.last(), '\n');
        assert(front.push(lines.last()) == lines);
    }
}

/// A text that neither starts nor ends with white space is what trimming
/// leaves of it and a line feed.
pub proof fn lemma_trim_line_feed(s: Seq<char>)
    requires
        s.len() > 0,
        !is_whitespace(s[0]),
        !is_whitespace(s.last()),
    ensures
        trim(s + seq!['\n']) == s,
{
    let t = s + seq!['\n'];
    assert(t[0] == s[0]);
    lemma_leading_whitespace_is(t, 0);
    assert(trim_start(t) == t);
    assert(t[t.len() - 1] == '\n');
    assert(t[t.len() - 2] == s.last());
    lemma_trailing_whitespace_is(t, 1);
    assert(t.take(t.len() - 1) == s);
}

/// The joined pieces start as the first piece starts and end as the last
/// piece ends.
pub proof fn lemma_join_ends(parts: Seq<Seq<char>>, c: char)
    requires
        parts.len() >= 1,
    ensures
        join(parts, c).len() >= parts[0].len(),
        join(parts, c).len() >= parts.last().len(),
        parts[0].len() > 0 ==> join(parts, c)[0] == parts[0][0],
        parts.last().len() > 0 ==> join(parts, c).last() == parts.last().last(),
    decreases parts.len(),
{
    if parts.len() > 1 {
        let rest = parts.drop_first();
        lemma_join_ends(rest, c);
        assert(rest.last() == parts.last());
        let joined = parts[0] + seq![c] + join(rest, c);
        if parts.last().len() > 0 {
            assert(joined.last() == join(rest, c).last());
        }
        if parts[0].len() > 0 {
            assert(joined[0] == parts[0][0]);
        }
    }
}

/// A text is blank exactly if all its characters are white space.
pub proof fn lemma_blank_iff(s: Seq<char>)
    ensures
        is_blank(s) <==> forall|i: int| 0 <= i < s.len() ==> is_whitespace(#[trigger] s[i]),
{
    lemma_leading_whitespace(s);
    let a = trim_start(s);
    lemma_trailing_whitespace(a);
    if forall|i: int| 0 <= i < s.len() ==> is_whitespace(#[trigger] s[i]) {
        lemma_leading_whitespace_is(s, s.len() as int);
        assert(a.len() == 0);
    } else {
        let i = choose|i: int| 0 <= i < s.len() && !is_whitespace(#[trigger] s[i]);
        let lead = leading_whitespace(s) as int;
        assert(lead <= i);
        assert(a.len() > 0);
        assert(a[0] == s[lead]);
        if trailing_whitespace(a) == a.len() {
            assert(is_whitespace(a[0]));
        }
    }
}

/// White space behind a text that is not blank is not touched by what
/// stands in front of the text.
pub proof fn lemma_trim_end_concat(x: Seq<char>, y: Seq<char>)
    requires
        !is_blank(y),
    ensures
        trim_end(x + y) == x + trim_end(y),
        trailing_whitespace(y) < y.len(),
{
    lemma_blank_iff(y);
    lemma_trailing_whitespace(y);
    let tail = trailing_whitespace(y) as int;
    if tail == y.len() {
        assert forall|i: int| 0 <= i < y.len() implies is_whitespace(#[trigger] y[i]) by {}
    }
    let z = x + y;
    assert forall|j: int| z.len() - tail <= j < z.len() implies is_whitespace(z[j]) by {
        assert(z[j] == y[j - x.len()]);
    }
    assert(z[z.len() - tail - 1] == y[y.len() - tail - 1]);
    lemma_trailing_whitespace_is(z, tail);
    assert(z.take(z.len() - tail) == x + y.take(y.len() - tail));
}

/// A line feed at the end of a text goes with the white space behind it.
pub proof fn lemma_trim_end_line_feed(z: Seq<char>)
    ensures
        trim_end(z + seq!['\n']) == trim_end(z),
{
    let t = z + seq!['\n'];
    assert(t.last() == '\n');
    assert(t.drop_last() == z);
    lemma_trailing_whitespace(z);
    assert(t.take(t.len() - trailing_whitespace(t)) == z.take(z.len() - trailing_whitespace(z)));
}

/// What trimming leaves of a text that is not blank, at either end or at
/// both, is not blank.
pub proof fn lemma_trimmed_not_blank(s: Seq<char>)
    requires
        !is_blank(s),
    ensures
        !is_blank(trim_start(s)),
        !is_blank(trim_end(s)),
        !is_blank(trim(s)),
{
    lemma_trim_is_trimmed(s);
    let t = trim(s);
    assert(t.len() > 0);
    lemma_blank_iff(t);
    assert(!is_whitespace(t[0]));
    // What is left after trimming at one end holds the first character of
    // what is left after trimming at both.
    let a = trim_start(s);
    lemma_blank_iff(a);
    lemma_leading_whitespace(s);
    lemma_trailing_whitespace(s);
    lemma_trailing_whitespace(a);
    assert(a[0] == t[0]);
    let b = trim_end(s);
    lemma_blank_iff(b);
    lemma_blank_iff(s);
    let i = choose|i: int| 0 <= i < s.len() && !is_whitespace(#[trigger] s[i]);
    assert(i < s.len() - trailing_whitespace(s));
    assert(b[i] == s[i]);
}

/// No piece of a split text holds the separator.
pub proof fn lemma_split_pieces(s: Seq<char>, c: char)
    ensures
        forall|i: int|
            0 <= i < split(s, c).len() ==> first_index(#[trigger] split(s, c)[i], c) == split(
                s,
                c,
            )[i].len(),
    decreases s.len(),
{
    lemma_first_index_bounds(s, c);
    let at = first_index(s, c);
    if 0 <= at < s.len() {
        let rest = s.skip(at + 1);
        lemma_split_pieces(rest, c);
        let head = s.take(at);
        assert forall|j: int| 0 <= j < head.len() implies head[j] != c by {
            assert(head[j] == s[j]);
        }
        lemma_first_index_is(head, c, head.len() as int);
        assert forall|i: int| 0 <= i < split(s, c).len() implies first_index(
            #[trigger] split(s, c)[i],
            c,
        ) == split(s, c)[i].len() by {
            if i > 0 {
                assert(split(s, c)[i] == split(rest, c)[i - 1]);
            }
        }
    } else {
        assert(split(s, c) == seq![s]);
    }
}

/// Pieces that do not hold the separator are what splitting makes of them
/// joined.
pub proof fn lemma_split_join(parts: Seq<Seq<char>>, c: char)
    requires
        parts.len() >= 1,
        forall|i: int|
            0 <= i < parts.len() ==> first_index(#[trigger] parts[i], c) == parts[i].len(),
    ensures
        split(join(parts, c), c) == parts,
    decreases parts.len(),
{
    let head = parts[0];
    lemma_first_index_bounds(head, c);
    if parts.len() == 1 {
        assert(split(head, c) == seq![head]);
        assert(parts == seq![head]);
    } else {
        let rest = parts.drop_first();
        assert forall|i: int| 0 <= i < rest.len() implies first_index(#[trigger] rest[i], c)
            == rest[i].len() by {
            assert(rest[i] == parts[i + 1]);
        }
        lemma_split_join(rest, c);
        let joined = head + seq![c] + join(rest, c);
        assert forall|j: int| 0 <= j < head.len() implies joined[j] != c by {
            assert(joined[j] == head[j]);
        }
        assert(joined[head.len() as int] == c);
        lemma_first_index_is(joined, c, head.len() as int);
        assert(joined.take(head.len() as int) == head);
        assert(joined.skip(head.len() as int + 1) == join(rest, c));
        assert(seq![head] + rest == parts);
    }
}

/// The first piece of a split text is the text in front of the first
/// separator, and there are more pieces exactly if there is a separator.
pub proof fn lemma_first_piece(s: Seq<char>, c: char)
    ensures
        split(s, c).len() >= 1,
        split(s, c)[0] == s.take(first_index(s, c)),
        split(s, c).len() >= 2 <==> first_index(s, c) < s.len(),
{
    lemma_first_index_bounds(s, c);
    let at = first_index(s, c);
    if at < s.len() {
        lemma_join_split(s.skip(at + 1), c);
    } else {
        assert(s.take(s.len() as int) == s);
    }
}

/// What trimming leaves of a text that is not blank: the text from its first
/// to its last character that is no white space.
pub proof fn lemma_trim_bounds(s: Seq<char>)
    requires
        !is_blank(s),
    ensures
        leading_whitespace(s) + trailing_whitespace(s) < s.len(),
        !is_whitespace(s[leading_whitespace(s) as int]),
        !is_whitespace(s[s.len() - trailing_whitespace(s) - 1]),
        trim(s) == s.subrange(leading_whitespace(s) as int, s.len() - trailing_whitespace(s)),
        trim_start(s).len() > 0,
        trailing_whitespace(trim_start(s)) == trailing_whitespace(s),
{
    lemma_blank_iff(s);
    lemma_leading_whitespace(s);
    lemma_trailing_whitespace(s);
    let lead = leading_whitespace(s) as int;
    let tail = trailing_whitespace(s) as int;
    let i = choose|i: int| 0 <= i < s.len() && !is_whitespace(#[trigger] s[i]);
    assert(lead <= i < s.len() - tail);
    let a = s.skip(lead);
    assert forall|j: int| a.len() - tail <= j < a.len() implies is_whitespace(a[j]) by {
        assert(a[j] == s[j + lead]);
    }
    assert(a[a.len() - tail - 1] == s[s.len() - tail - 1]);
    lemma_trailing_whitespace_is(a, tail);
    assert(a.take(a.len() - tail) == s.subrange(lead, s.len() - tail));
}

/// Trimming at the end a second time changes nothing.
pub proof fn lemma_trim_end_idempotent(s: Seq<char>)
    ensures
        trim_end(trim_end(s)) == trim_end(s),
{
    lemma_trailing_whitespace(s);
    let t = trim_end(s);
    if t.len() > 0 {
        assert(t.last() == s[s.len() - trailing_whitespace(s) - 1]);
    }
    lemma_trailing_whitespace_is(t, 0);
    assert(t.take(t.len() as int) == t);
}

/// Trimming at the end first makes no difference to trimming.
pub proof fn lemma_trim_of_trim_end(s: Seq<char>)
    requires
        !is_blank(s),
    ensures
        trim(trim_end(s)) == trim(s),
{
    lemma_trim_bounds(s);
    let lead = leading_whitespace(s) as int;
    let tail = trailing_whitespace(s) as int;
    let t = trim_end(s);
    lemma_leading_whitespace(s);
    assert forall|j: int| 0 <= j < lead implies is_whitespace(t[j]) by {
        assert(t[j] == s[j]);
    }
    assert(t[lead] == s[lead]);
    lemma_leading_whitespace_is(t, lead);
    let a = t.skip(lead);
    assert(a.last() == s[s.len() - tail - 1]);
    lemma_trailing_whitespace_is(a, 0);
    assert(a.take(a.len() as int) == a);
    assert(a == s.subrange(lead, s.len() - tail));
}

/// `s` without the white space at its end.
pub fn trim_end_chars(s: &Vec<char>) -> (out: Vec<char>)
    ensures
        out@ == trim_end(s@),
{
    let mut end: usize = s.len();
    while end > 0 && is_whitespace_char(s[end - 1])
        invariant
            end <= s.len(),
            forall|j: int| end <= j < s.len() ==> is_whitespace(s@[j]),
        decreases end,
    {
        end -= 1;
    }
    proof {
        lemma_trailing_whitespace_is(s@, s.len() - end);
    }
    slice_of(s, 0, end)
}

} // verus!
