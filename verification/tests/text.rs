use aim::number::{
    canonical_digits, decimal_chars, digits_exceed, increment, is_float_literal_chars,
    parse_u32_chars,
};
use aim::text::{
    chars_of, find_char, is_blank_chars, is_whitespace_char, split_chars, string_of,
    trim_chars,
};

fn chars(s: &str) -> Vec<char> {
    s.chars().collect()
}

#[test]
fn float_literals_are_what_the_standard_library_reads() {
    let samples = [
        "", "0", "1", "-1", "+1", "1.", ".1", "1.1", ".", "+.", "-.5", "1e1", "1E1", "1e+1", "1e-1",
        "1e", "1e+", "e1", ".e1", "1.e1", ".1e1", "1.1e1.1", "1e1e1", "inf", "INF", "-inf", "+Inf",
        "infinity", "InFiNiTy", "infinit", "infinityy", "nan", "NaN", "-nan", "nana", "n", "i",
        " 1", "1 ", "1_0", "0x1", "1f32", "--1", "+-1", "1..2", "١", "1,5", "١٢٣", "12345678901234567890",
        "0.000000000000000000000000000000000000000000000000000001", "1e400", "-1e-400", "++", "+", "-",
        "İnf", "ınf", "ｉｎｆ",
    ];
    for sample in samples {
        assert_eq!(
            is_float_literal_chars(&chars(sample)),
            sample.parse::<f32>().is_ok(),
            "{:?}",
            sample
        );
    }
}

#[test]
fn unsigned_numbers_are_what_the_standard_library_reads() {
    let samples = [
        "", "0", "007", "+7", "-7", "+", "4294967295", "4294967296", "+4294967295", "99999999999",
        "00000000000000000001", " 1", "1 ", "1a", "a1", "١", "1_000", "+-1", "++1", "0x10",
    ];
    for sample in samples {
        assert_eq!(parse_u32_chars(&chars(sample)), sample.parse::<u32>().ok(), "{:?}", sample);
    }
}

#[test]
fn white_space_is_what_the_standard_library_trims() {
    for code in 0u32..0x3100 {
        if let Some(c) = char::from_u32(code) {
            assert_eq!(is_whitespace_char(c), c.is_whitespace(), "{:x}", code);
        }
    }
    for sample in ["", " ", " a ", "\t\r\n a b \u{3000}\u{85}", "\u{a0}x\u{2003}", "x", " \t "] {
        assert_eq!(string_of(&trim_chars(&chars(sample))), sample.trim(), "{:?}", sample);
        assert_eq!(is_blank_chars(&chars(sample)), sample.trim().is_empty(), "{:?}", sample);
    }
}

#[test]
fn splitting_keeps_empty_pieces() {
    for sample in ["", "a", "a b", " a  b ", "  ", "a\nb"] {
        let pieces: Vec<String> = split_chars(&chars(sample), ' ').iter().map(string_of).collect();
        let expected: Vec<&str> = sample.split(' ').collect();
        assert_eq!(pieces, expected, "{:?}", sample);
    }
}

#[test]
fn numbers_are_written_in_decimal() {
    for n in [0u128, 7, 10, 99, 100, 4294967295, 4294967296, u128::MAX] {
        assert_eq!(string_of(&decimal_chars(n)), n.to_string());
    }
}

#[test]
fn searching_finds_the_first_place() {
    assert_eq!(find_char(&chars("a:b:c"), ':'), 1);
    assert_eq!(find_char(&chars("abc"), ':'), 3);
    assert_eq!(chars_of("añ"), vec!['a', 'ñ']);
}

#[test]
fn long_numbers_are_compared_and_counted() {
    let pairs = [
        ("", "", false), ("1", "", true), ("", "0", false), ("0", "", false), ("10", "9", true),
        ("9", "10", false), ("0010", "9", true), ("123", "0123", false), ("124", "0123", true),
        ("99999999999999999999999999999999999999999", "100000000000000000000000000000000000000000", false),
        ("100000000000000000000000000000000000000000", "99999999999999999999999999999999999999999", true),
        ("500", "499", true), ("499", "500", false),
    ];
    for (a, b, expected) in pairs {
        assert_eq!(digits_exceed(&chars(a), &chars(b)), expected, "{:?} {:?}", a, b);
    }
    for (digits, expected) in [("", "0"), ("0", "0"), ("000", "0"), ("007", "7"), ("100", "100"), ("0100", "100")] {
        assert_eq!(string_of(&canonical_digits(&chars(digits))), expected);
    }
    for (number, expected) in [("0", "1"), ("8", "9"), ("9", "10"), ("19", "20"), ("99", "100"), ("1099", "1100"),
        ("99999999999999999999999999999999999999999", "100000000000000000000000000000000000000000")] {
        let mut digits = chars(number);
        increment(&mut digits);
        assert_eq!(string_of(&digits), expected);
    }
}
