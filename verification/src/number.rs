//! Reading and writing numbers.

use vstd::prelude::*;

verus! {

/// Value of a string of decimal digits, read as a natural number. Characters
/// that are no digits are not expected; see `all_digits`.
pub open spec fn digits_value(s: Seq<char>) -> nat
    decreases s.len(),
{
    if s.len() == 0 {
        0
    } else {
        (digits_value(s.drop_last()) * 10 + (s.last() as u32 - '0' as u32)) as nat
    }
}

pub open spec fn is_digit(c: char) -> bool {
    '0' <= c <= '9'
}

pub open spec fn all_digits(s: Seq<char>) -> bool {
    forall|i: int| 0 <= i < s.len() ==> is_digit(#[trigger] s[i])
}

/// The number that a 32-bit unsigned decimal literal stands for: an optional
/// `+`, then one or more digits whose value fits. Anything else is no number.
pub open spec fn parse_u32(s: Seq<char>) -> Option<u32> {
    let d = if s.len() > 0 && s[0] == '+' {
        s.drop_first()
    } else {
        s
    };
    if d.len() > 0 && all_digits(d) && digits_value(d) <= u32::MAX {
        Some(digits_value(d) as u32)
    } else {
        None
    }
}

/// The decimal digits of `n`, without leading zeros; `0` is written "0".
pub open spec fn decimal(n: nat) -> Seq<char>
    decreases n,
{
    if n < 10 {
        seq![digit_char(n)]
    } else {
        decimal(n / 10).push(digit_char(n % 10))
    }
}

pub open spec fn digit_char(d: nat) -> char {
    if d == 0 {
        '0'
    } else if d == 1 {
        '1'
    } else if d == 2 {
        '2'
    } else if d == 3 {
        '3'
    } else if d == 4 {
        '4'
    } else if d == 5 {
        '5'
    } else if d == 6 {
        '6'
    } else if d == 7 {
        '7'
    } else if d == 8 {
        '8'
    } else {
        '9'
    }
}

/// A longer string of digits is worth at least as much as its front part.
pub proof fn lemma_digits_value_prefix(s: Seq<char>, k: int)
    requires
        0 <= k <= s.len(),
        all_digits(s),
    ensures
        digits_value(s.take(k)) <= digits_value(s),
    decreases s.len() - k,
{
    if k == s.len() {
        assert(s.take(k) == s);
    } else {
        let t = s.drop_last();
        assert(is_digit(s.last()));
        assert forall|i: int| 0 <= i < t.len() implies is_digit(#[trigger] t[i]) by {
            assert(t[i] == s[i]);
        }
        lemma_digits_value_prefix(t, k);
        assert(t.take(k) == s.take(k));
        assert(digits_value(t) <= digits_value(t) * 10) by (nonlinear_arith);
    }
}

pub fn is_digit_char(c: char) -> (b: bool)
    ensures
        b == is_digit(c),
{
    '0' <= c && c <= '9'
}

/// Reads a 32-bit unsigned decimal literal.
pub fn parse_u32_chars(s: &Vec<char>) -> (r: Option<u32>)
    ensures
        r == parse_u32(s@),
{
    let start: usize = if s.len() > 0 && s[0] == '+' {
        1
    } else {
        0
    };
    let ghost d = s@.skip(start as int);
    proof {
        if start == 1 {
            assert(d == s@.drop_first());
        } else {
            assert(d == s@);
        }
    }
    if start == s.len() {
        return None;
    }
    let mut acc: u64 = 0;
    let mut i: usize = start;
    proof {
        assert(d.take(0).len() == 0);
    }
    while i < s.len()
        invariant
            start <= i <= s.len(),
            d == s@.skip(start as int),
            d.len() > 0,
            parse_u32(s@) == (if all_digits(d) && digits_value(d) <= u32::MAX {
                Some(digits_value(d) as u32)
            } else {
                None::<u32>
            }),
            all_digits(d.take(i - start)),
            acc == digits_value(d.take(i - start)),
            acc <= u32::MAX,
        decreases s.len() - i,
    {
        let c = s[i];
        let ghost front = d.take(i - start);
        let ghost next = d.take(i - start + 1);
        proof {
            assert(d[i - start] == c);
            assert(next.drop_last() == front);
            assert(next.last() == c);
        }
        if !is_digit_char(c) {
            proof {
                assert(!is_digit(d[i - start]));
            }
            return None;
        }
        let digit: u64 = (c as u32 - '0' as u32) as u64;
        let value: u64 = acc * 10 + digit;
        proof {
            assert forall|j: int| 0 <= j < next.len() implies is_digit(#[trigger] next[j]) by {
                if j < front.len() {
                    assert(next[j] == front[j]);
                }
            }
            assert(value == digits_value(next));
        }
        if value > 0xFFFF_FFFF {
            proof {
                if all_digits(d) {
                    lemma_digits_value_prefix(d, i - start + 1);
                }
            }
            return None;
        }
        acc = value;
        i += 1;
    }
    proof {
        assert(d.take(i - start) == d);
    }
    Some(acc as u32)
}

/// Writes `n` in decimal.
pub fn decimal_chars(n: u128) -> (out: Vec<char>)
    ensures
        out@ == decimal(n as nat),
    decreases n,
{
    let d: u128 = n % 10;
    let c: char = if d == 0 {
        '0'
    } else if d == 1 {
        '1'
    } else if d == 2 {
        '2'
    } else if d == 3 {
        '3'
    } else if d == 4 {
        '4'
    } else if d == 5 {
        '5'
    } else if d == 6 {
        '6'
    } else if d == 7 {
        '7'
    } else if d == 8 {
        '8'
    } else {
        '9'
    };
    if n < 10 {
        let mut out: Vec<char> = Vec::new();
        out.push(c);
        out
    } else {
        let mut out = decimal_chars(n / 10);
        out.push(c);
        out
    }
}

/// Number of decimal digits at the front of `s`.
pub open spec fn leading_digits(s: Seq<char>) -> nat
    decreases s.len(),
{
    if s.len() > 0 && is_digit(s[0]) {
        1 + leading_digits(s.drop_first())
    } else {
        0
    }
}

pub open spec fn is_sign(c: char) -> bool {
    c == '+' || c == '-'
}

pub open spec fn is_exponent_mark(c: char) -> bool {
    c == 'e' || c == 'E'
}

/// The letter in lower case; other characters as they are.
pub open spec fn ascii_lower(c: char) -> char {
    if 'A' <= c <= 'Z' {
        ((c as u32) + 32) as char
    } else {
        c
    }
}

/// Whether `s` reads `word` when case is ignored; `word` is in lower case.
pub open spec fn reads_as(s: Seq<char>, word: Seq<char>) -> bool {
    s.len() == word.len() && forall|i: int| 0 <= i < s.len() ==> ascii_lower(#[trigger] s[i]) == word[i]
}

/// An exponent: `e` or `E`, an optional sign, and one or more digits.
pub open spec fn is_exponent(s: Seq<char>) -> bool {
    &&& s.len() >= 2
    &&& is_exponent_mark(s[0])
    &&& {
        let digits = if is_sign(s[1]) {
            s.skip(2)
        } else {
            s.skip(1)
        };
        digits.len() > 0 && leading_digits(digits) == digits.len()
    }
}

/// A decimal number without sign: digits with at most one point among them,
/// at least one digit in all, and an optional exponent behind.
pub open spec fn is_unsigned_number(s: Seq<char>) -> bool {
    let whole = leading_digits(s);
    let after_whole = s.skip(whole as int);
    let has_point = after_whole.len() > 0 && after_whole[0] == '.';
    let fraction: nat = if has_point {
        leading_digits(after_whole.skip(1))
    } else {
        0
    };
    let rest = if has_point {
        after_whole.skip(1 + fraction as int)
    } else {
        after_whole
    };
    whole + fraction > 0 && (rest.len() == 0 || is_exponent(rest))
}

/// The texts that read as a floating-point number: an optional sign, then
/// `inf`, `infinity` or `nan` in any case, or a decimal number. No white
/// space is allowed anywhere.
pub open spec fn is_float_literal(s: Seq<char>) -> bool {
    let body = if s.len() > 0 && is_sign(s[0]) {
        s.drop_first()
    } else {
        s
    };
    ||| reads_as(body, seq!['i', 'n', 'f'])
    ||| reads_as(body, seq!['i', 'n', 'f', 'i', 'n', 'i', 't', 'y'])
    ||| reads_as(body, seq!['n', 'a', 'n'])
    ||| is_unsigned_number(body)
}

pub proof fn lemma_leading_digits(s: Seq<char>)
    ensures
        leading_digits(s) <= s.len(),
        forall|j: int| 0 <= j < leading_digits(s) ==> is_digit(s[j]),
        leading_digits(s) < s.len() ==> !is_digit(s[leading_digits(s) as int]),
    decreases s.len(),
{
    if s.len() > 0 && is_digit(s[0]) {
        lemma_leading_digits(s.drop_first());
        assert forall|j: int| 0 <= j < leading_digits(s) implies is_digit(s[j]) by {
            if j > 0 {
                assert(s.drop_first()[j - 1] == s[j]);
            }
        }
    }
}

pub proof fn lemma_leading_digits_is(s: Seq<char>, k: int)
    requires
        0 <= k <= s.len(),
        forall|j: int| 0 <= j < k ==> is_digit(s[j]),
        k < s.len() ==> !is_digit(s[k]),
    ensures
        leading_digits(s) == k,
{
    lemma_leading_digits(s);
    let f = leading_digits(s) as int;
    if f < k {
    } else if f > k {
    }
}

/// Number of digits in `s` from position `from` on.
fn count_digits(s: &Vec<char>, from: usize) -> (n: usize)
    requires
        from <= s.len(),
    ensures
        n == leading_digits(s@.skip(from as int)),
        from + n <= s.len(),
{
    let mut i: usize = from;
    while i < s.len() && is_digit_char(s[i])
        invariant
            from <= i <= s.len(),
            forall|j: int| from <= j < i ==> is_digit(s@[j]),
        decreases s.len() - i,
    {
        i += 1;
    }
    proof {
        let t = s@.skip(from as int);
        assert forall|j: int| 0 <= j < i - from implies is_digit(t[j]) by {
            assert(t[j] == s@[from + j]);
        }
        if i < s.len() {
            assert(t[i - from] == s@[i as int]);
        }
        lemma_leading_digits_is(t, i - from);
    }
    i - from
}

fn lower_char(c: char) -> (r: char)
    ensures
        r == ascii_lower(c),
{
    if 'A' <= c && c <= 'Z' {
        if c == 'A' { 'a' } else if c == 'B' { 'b' } else if c == 'C' { 'c' } else if c == 'D' { 'd' }
        else if c == 'E' { 'e' } else if c == 'F' { 'f' } else if c == 'G' { 'g' } else if c == 'H' { 'h' }
        else if c == 'I' { 'i' } else if c == 'J' { 'j' } else if c == 'K' { 'k' } else if c == 'L' { 'l' }
        else if c == 'M' { 'm' } else if c == 'N' { 'n' } else if c == 'O' { 'o' } else if c == 'P' { 'p' }
        else if c == 'Q' { 'q' } else if c == 'R' { 'r' } else if c == 'S' { 's' } else if c == 'T' { 't' }
        else if c == 'U' { 'u' } else if c == 'V' { 'v' } else if c == 'W' { 'w' } else if c == 'X' { 'x' }
        else if c == 'Y' { 'y' } else { 'z' }
    } else {
        c
    }
}

/// Whether `s` from `from` on reads `word`, case ignored.
fn reads_word(s: &Vec<char>, from: usize, word: &Vec<char>) -> (r: bool)
    requires
        from <= s.len(),
    ensures
        r == reads_as(s@.skip(from as int), word@),
{
    if s.len() - from != word.len() {
        return false;
    }
    let ghost t = s@.skip(from as int);
    let mut i: usize = 0;
    while i < word.len()
        invariant
            i <= word.len(),
            from + word.len() == s.len(),
            t == s@.skip(from as int),
            forall|j: int| 0 <= j < i ==> ascii_lower(#[trigger] t[j]) == word@[j],
        decreases word.len() - i,
    {
        proof {
            assert(t[i as int] == s@[from + i]);
        }
        if lower_char(s[from + i]) != word[i] {
            return false;
        }
        i += 1;
    }
    true
}

/// Whether `s` from `from` on reads `inf`, `infinity` or `nan`.
fn reads_special(s: &Vec<char>, from: usize) -> (r: bool)
    requires
        from <= s.len(),
    ensures
        r == (reads_as(s@.skip(from as int), seq!['i', 'n', 'f']) || reads_as(
            s@.skip(from as int),
            seq!['i', 'n', 'f', 'i', 'n', 'i', 't', 'y'],
        ) || reads_as(s@.skip(from as int), seq!['n', 'a', 'n'])),
{
    let mut inf: Vec<char> = Vec::new();
    inf.push('i');
    inf.push('n');
    inf.push('f');
    let mut infinity: Vec<char> = Vec::new();
    infinity.push('i');
    infinity.push('n');
    infinity.push('f');
    infinity.push('i');
    infinity.push('n');
    infinity.push('i');
    infinity.push('t');
    infinity.push('y');
    let mut nan: Vec<char> = Vec::new();
    nan.push('n');
    nan.push('a');
    nan.push('n');
    proof {
        assert(inf@ == seq!['i', 'n', 'f']);
        assert(infinity@ == seq!['i', 'n', 'f', 'i', 'n', 'i', 't', 'y']);
        assert(nan@ == seq!['n', 'a', 'n']);
    }
    let a = reads_word(s, from, &inf);
    let b = reads_word(s, from, &infinity);
    let c = reads_word(s, from, &nan);
    a || b || c
}

/// Whether `s` from `from` on is an exponent.
fn reads_exponent(s: &Vec<char>, from: usize) -> (r: bool)
    requires
        from <= s.len(),
    ensures
        r == is_exponent(s@.skip(from as int)),
{
    let ghost rest = s@.skip(from as int);
    if s.len() - from < 2 {
        return false;
    }
    proof {
        assert(rest[0] == s@[from as int]);
        assert(rest[1] == s@[from + 1]);
    }
    if !(s[from] == 'e' || s[from] == 'E') {
        return false;
    }
    let digits_from: usize = if s[from + 1] == '+' || s[from + 1] == '-' {
        from + 2
    } else {
        from + 1
    };
    proof {
        assert(rest.skip(digits_from - from) == s@.skip(digits_from as int));
    }
    let digits = count_digits(s, digits_from);
    digits > 0 && digits_from + digits == s.len()
}

/// Whether `s` from `from` on is a decimal number without sign.
fn reads_unsigned_number(s: &Vec<char>, from: usize) -> (r: bool)
    requires
        from <= s.len(),
    ensures
        r == is_unsigned_number(s@.skip(from as int)),
{
    let ghost body = s@.skip(from as int);
    let whole = count_digits(s, from);
    let at: usize = from + whole;
    let ghost after_whole = body.skip(whole as int);
    proof {
        assert(after_whole == s@.skip(at as int));
        if at < s.len() {
            assert(after_whole[0] == s@[at as int]);
        }
    }
    if at < s.len() && s[at] == '.' {
        proof {
            assert(after_whole.skip(1) == s@.skip(at + 1));
        }
        let fraction = count_digits(s, at + 1);
        let end: usize = at + 1 + fraction;
        proof {
            assert(after_whole.skip(1 + fraction as int) == s@.skip(end as int));
        }
        if whole == 0 && fraction == 0 {
            return false;
        }
        end == s.len() || reads_exponent(s, end)
    } else {
        if whole == 0 {
            return false;
        }
        at == s.len() || reads_exponent(s, at)
    }
}

/// Whether `s` reads as a floating-point number.
pub fn is_float_literal_chars(s: &Vec<char>) -> (r: bool)
    ensures
        r == is_float_literal(s@),
{
    let start: usize = if s.len() > 0 && (s[0] == '+' || s[0] == '-') {
        1
    } else {
        0
    };
    proof {
        if start == 1 {
            assert(s@.skip(1) == s@.drop_first());
        } else {
            assert(s@.skip(0) == s@);
        }
    }
    reads_special(s, start) || reads_unsigned_number(s, start)
}

/// A number in decimal is made of digits, at least one.
pub proof fn lemma_decimal_digits(n: nat)
    ensures
        all_digits(decimal(n)),
        decimal(n).len() >= 1,
    decreases n,
{
    if n >= 10 {
        lemma_decimal_digits(n / 10);
        let front = decimal(n / 10);
        let d = digit_char(n % 10);
        assert forall|i: int| 0 <= i < decimal(n).len() implies is_digit(#[trigger] decimal(n)[i]) by {
            if i < front.len() {
                assert(decimal(n)[i] == front[i]);
            }
        }
    }
}

/// Reading a number written in decimal gives the number.
pub proof fn lemma_decimal_value(n: nat)
    ensures
        digits_value(decimal(n)) == n,
        all_digits(decimal(n)),
        decimal(n).len() >= 1,
    decreases n,
{
    lemma_decimal_digits(n);
    if n < 10 {
        let s = decimal(n);
        assert(s.drop_last() == Seq::<char>::empty());
        assert(digits_value(s.drop_last()) == 0);
        assert(s.last() == digit_char(n));
    } else {
        lemma_decimal_value(n / 10);
        let front = decimal(n / 10);
        let s = decimal(n);
        assert(s.drop_last() == front);
        assert(s.last() == digit_char(n % 10));
    }
}

/// The string of digits with `zeros` zeros in front of it.
pub open spec fn padded(s: Seq<char>, zeros: nat) -> Seq<char> {
    Seq::new(zeros, |i: int| '0') + s
}

/// Zeros in front of a string of digits add nothing to its value.
pub proof fn lemma_padded_value(s: Seq<char>, zeros: nat)
    ensures
        digits_value(padded(s, zeros)) == digits_value(s),
    decreases s.len(), zeros,
{
    let p = padded(s, zeros);
    if s.len() > 0 {
        lemma_padded_value(s.drop_last(), zeros);
        assert(p.drop_last() == padded(s.drop_last(), zeros));
        assert(p.last() == s.last());
    } else if zeros > 0 {
        lemma_padded_value(s, (zeros - 1) as nat);
        assert(p.drop_last() == padded(s, (zeros - 1) as nat));
        assert(p.last() == '0');
    } else {
        assert(p.len() == 0);
    }
}

/// Whether the first string of digits is worth more than the second.
pub fn digits_exceed(a: &Vec<char>, b: &Vec<char>) -> (r: bool)
    requires
        all_digits(a@),
        all_digits(b@),
    ensures
        r == (digits_value(a@) > digits_value(b@)),
{
    let width: usize = if a.len() > b.len() {
        a.len()
    } else {
        b.len()
    };
    let a_zeros: usize = width - a.len();
    let b_zeros: usize = width - b.len();
    let ghost wide_a = padded(a@, a_zeros as nat);
    let ghost wide_b = padded(b@, b_zeros as nat);
    // 0 while the digits read so far are worth the same, 1 where those of
    // `a` are worth more, 2 where those of `b` are.
    let mut state: u8 = 0;
    let mut i: usize = 0;
    proof {
        assert(wide_a.take(0).len() == 0);
        assert(wide_b.take(0).len() == 0);
    }
    while i < width
        invariant
            i <= width,
            width == a.len() + a_zeros,
            width == b.len() + b_zeros,
            wide_a == padded(a@, a_zeros as nat),
            wide_b == padded(b@, b_zeros as nat),
            all_digits(a@),
            all_digits(b@),
            state <= 2,
            state == 0 <==> digits_value(wide_a.take(i as int)) == digits_value(
                wide_b.take(i as int),
            ),
            state == 1 <==> digits_value(wide_a.take(i as int)) > digits_value(
                wide_b.take(i as int),
            ),
        decreases width - i,
    {
        let x: char = if i < a_zeros {
            '0'
        } else {
            a[i - a_zeros]
        };
        let y: char = if i < b_zeros {
            '0'
        } else {
            b[i - b_zeros]
        };
        proof {
            assert(wide_a.take(i + 1).drop_last() == wide_a.take(i as int));
            assert(wide_b.take(i + 1).drop_last() == wide_b.take(i as int));
            assert(wide_a.take(i + 1).last() == x);
            assert(wide_b.take(i + 1).last() == y);
            assert(is_digit(x));
            assert(is_digit(y));
        }
        if state == 0 {
            if x > y {
                state = 1;
            } else if x < y {
                state = 2;
            }
        }
        i += 1;
    }
    proof {
        assert(wide_a.take(width as int) == wide_a);
        assert(wide_b.take(width as int) == wide_b);
        lemma_padded_value(a@, a_zeros as nat);
        lemma_padded_value(b@, b_zeros as nat);
    }
    state == 1
}

/// The value of a string of digits, written without zeros in front.
pub fn canonical_digits(digits: &Vec<char>) -> (out: Vec<char>)
    requires
        all_digits(digits@),
    ensures
        out@ == decimal(digits_value(digits@)),
{
    let mut out: Vec<char> = Vec::new();
    out.push('0');
    let mut i: usize = 0;
    proof {
        assert(digits@.take(0).len() == 0);
        assert(out@ == decimal(0));
    }
    while i < digits.len()
        invariant
            i <= digits.len(),
            all_digits(digits@),
            out@ == decimal(digits_value(digits@.take(i as int))),
        decreases digits.len() - i,
    {
        let c = digits[i];
        let ghost value = digits_value(digits@.take(i as int));
        proof {
            assert(digits@.take(i + 1).drop_last() == digits@.take(i as int));
            assert(digits@.take(i + 1).last() == c);
            assert(is_digit(c));
            lemma_decimal_digits(value);
            if value >= 10 {
                lemma_decimal_digits(value / 10);
            }
            let digit = (c as u32 - '0' as u32) as nat;
            assert(digit_char(digit) == c);
            assert(digits_value(digits@.take(i + 1)) == value * 10 + digit);
        }
        if out.len() == 1 && out[0] == '0' {
            out = Vec::new();
            out.push(c);
        } else {
            out.push(c);
        }
        i += 1;
    }
    proof {
        assert(digits@.take(digits.len() as int) == digits@);
    }
    out
}

/// The digit that follows `c`; asked of the digits `0` to `8`.
fn next_digit(c: char) -> (r: char)
    requires
        '0' <= c <= '8',
    ensures
        r == digit_char(((c as u32 - '0' as u32) + 1) as nat),
{
    if c == '0' {
        '1'
    } else if c == '1' {
        '2'
    } else if c == '2' {
        '3'
    } else if c == '3' {
        '4'
    } else if c == '4' {
        '5'
    } else if c == '5' {
        '6'
    } else if c == '6' {
        '7'
    } else if c == '7' {
        '8'
    } else {
        '9'
    }
}

/// Counts a number up by one. The number is written in decimal, without
/// zeros in front, and may have any length.
pub fn increment(number: &mut Vec<char>)
    requires
        old(number)@ == decimal(digits_value(old(number)@)),
    ensures
        final(number)@ == decimal(digits_value(old(number)@) + 1),
    decreases old(number)@.len(),
{
    let ghost n = digits_value(number@);
    proof {
        lemma_decimal_value(n);
        if n >= 10 {
            lemma_decimal_value(n / 10);
            assert(number@.drop_last() == decimal(n / 10));
        }
        assert(number@.last() == digit_char(n % 10));
    }
    let last = number.pop();
    let c: char = match last {
        Some(c) => c,
        None => '0',
    };
    proof {
        assert(number@ == old(number)@.drop_last());
        assert(c == digit_char(n % 10));
    }
    if c != '9' {
        number.push(next_digit(c));
        proof {
            assert(n % 10 != 9);
            if n < 10 {
                assert(number@ == seq![digit_char(n + 1)]);
            } else {
                assert((n + 1) / 10 == n / 10);
                assert((n + 1) % 10 == n % 10 + 1);
                assert(number@ == decimal(n / 10).push(digit_char((n + 1) % 10)));
            }
        }
    } else if number.len() == 0 {
        number.push('1');
        number.push('0');
        proof {
            assert(n == 9);
            assert(decimal(1) == seq!['1']);
            assert(number@ == decimal(1).push(digit_char(0)));
        }
    } else {
        proof {
            assert(n >= 10);
            assert(n % 10 == 9);
        }
        increment(number);
        number.push('0');
        proof {
            assert((n + 1) / 10 == n / 10 + 1);
            assert((n + 1) % 10 == 0);
            assert(number@ == decimal((n + 1) / 10).push(digit_char(0)));
        }
    }
}

} // verus!
