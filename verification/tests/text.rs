use advent_of_code::parser::{CharClass, IntError, Parser};
use advent_of_code::text::{
    ascii_space, chars_of, copy_chars, decimal_string, digit, lines, push_decimal, read_digits,
    read_signed, read_unsigned, same_chars, signed_string, space, string_of, tokens,
    value_of_digit,
};

fn text(rows: Vec<Vec<char>>) -> Vec<String> {
    rows.iter().map(|row| row.iter().collect()).collect()
}

#[test]
fn lines_end_at_line_feeds() {
    assert_eq!(text(lines("")), Vec::<String>::new());
    assert_eq!(text(lines("a")), vec!["a"]);
    assert_eq!(text(lines("a\n")), vec!["a"]);
    assert_eq!(text(lines("a\nb")), vec!["a", "b"]);
    assert_eq!(text(lines("a\n\nb\n")), vec!["a", "", "b"]);
    assert_eq!(text(lines("\n")), vec![""]);
    assert_eq!(text(lines("\n\n")), vec!["", ""]);
    // A carriage return belongs to the line end only before a line feed.
    assert_eq!(text(lines("a\r\nb\r")), vec!["a", "b\r"]);
    assert_eq!(text(lines("a\rb\r\n")), vec!["a\rb"]);
    assert_eq!(text(lines("a\r\r\n")), vec!["a\r"]);
    for s in ["", "a", "a\n", "\n\nx\r\n\r", "one\ntwo\r\nthree", "\r\n", "\r"] {
        let expected: Vec<String> = s.lines().map(String::from).collect();
        assert_eq!(text(lines(s)), expected);
    }
}

#[test]
fn tokens_are_runs_without_ascii_whitespace() {
    let split = |s: &str| text(tokens(&chars_of(s)));
    assert_eq!(split(""), Vec::<String>::new());
    assert_eq!(split("   "), Vec::<String>::new());
    assert_eq!(split("a"), vec!["a"]);
    assert_eq!(split(" a  bc\td\n"), vec!["a", "bc", "d"]);
    assert_eq!(split("a\u{c}b\rc"), vec!["a", "b", "c"]);
    // A no-break space is no ASCII whitespace.
    assert_eq!(split("a\u{a0}b c"), vec!["a\u{a0}b", "c"]);
    for s in ["", " x ", "Time:      7  15   30", "\t\ta\u{b}b", "1 2\n3"] {
        let expected: Vec<String> = s.split_ascii_whitespace().map(String::from).collect();
        assert_eq!(split(s), expected);
    }
}

#[test]
fn characters_fall_into_classes() {
    for c in ['\0', '\t', '\n', '\u{b}', '\u{c}', '\r', ' ', '0', '9', 'a', 'Z', '\u{85}',
        '\u{a0}', '\u{1680}', '\u{2000}', '\u{200a}', '\u{200b}', '\u{2028}', '\u{2029}',
        '\u{202f}', '\u{205f}', '\u{3000}', '\u{3001}', '\u{e9}', '\u{4e2d}', '\u{661}']
    {
        assert_eq!(space(c), c.is_whitespace(), "{c:?}");
        assert_eq!(ascii_space(c), c.is_ascii_whitespace(), "{c:?}");
        assert_eq!(digit(c), c.is_ascii_digit(), "{c:?}");
        assert_eq!(CharClass::Space.test(c), c.is_whitespace());
        assert_eq!(CharClass::Digit.test(c), c.is_ascii_digit());
        assert_eq!(CharClass::Letter.test(c), c.is_alphabetic());
    }
    let mut code = 0u32;
    while code < 0x3100 {
        if let Some(c) = char::from_u32(code) {
            assert_eq!(space(c), c.is_whitespace(), "{code:x}");
        }
        code += 1;
    }
    assert_eq!(value_of_digit('0'), 0);
    assert_eq!(value_of_digit('7'), 7);
    assert_eq!(value_of_digit('9'), 9);
}

#[test]
fn numbers_are_read_as_the_standard_library_reads_them() {
    for s in ["", "0", "7", "007", "+5", "+", "-", "-5", "+-5", "5+", "1a", " 1", "255", "256",
        "65535", "65536", "4294967295", "4294967296", "18446744073709551615",
        "18446744073709551616", "99999999999999999999999", "-0", "+0",
        "9223372036854775807", "9223372036854775808", "-9223372036854775808",
        "-9223372036854775809", "\u{661}"]
    {
        let chars = chars_of(s);
        assert_eq!(read_unsigned(&chars, u64::MAX), s.parse::<u64>().ok(), "{s}");
        assert_eq!(
            read_unsigned(&chars, 255),
            s.parse::<u8>().ok().map(u64::from),
            "{s}"
        );
        assert_eq!(
            read_unsigned(&chars, 65535),
            s.parse::<u16>().ok().map(u64::from),
            "{s}"
        );
        assert_eq!(read_signed(&chars), s.parse::<i64>().ok(), "{s}");
    }
    let chars = chars_of("ab123");
    assert_eq!(read_digits(&chars, 2, 1000), Some(123));
    assert_eq!(read_digits(&chars, 2, 122), None);
    assert_eq!(read_digits(&chars, 1, 1000), None);
    assert_eq!(read_digits(&chars, 5, 1000), None);
    assert_eq!(read_digits(&chars_of("+5"), 0, 1000), None);
}

#[test]
fn numbers_are_written_in_decimal_digits() {
    for n in [0u64, 1, 9, 10, 11, 99, 100, 101, 12345, 1000000, u64::MAX - 1, u64::MAX] {
        assert_eq!(decimal_string(n), n.to_string());
    }
    for n in [0i64, 1, -1, 9, -9, 10, -10, 12345, -12345, i64::MAX, i64::MIN, i64::MIN + 1] {
        assert_eq!(signed_string(n), n.to_string());
    }
    let mut out = vec!['x'];
    push_decimal(907, &mut out);
    push_decimal(0, &mut out);
    assert_eq!(out, vec!['x', '9', '0', '7', '0']);
}

#[test]
fn characters_are_copied_and_compared() {
    assert_eq!(chars_of(""), Vec::<char>::new());
    assert_eq!(chars_of("a\u{e9}\u{4e2d}"), vec!['a', '\u{e9}', '\u{4e2d}']);
    assert_eq!(string_of(&['a', '\u{e9}', '\u{4e2d}']), "a\u{e9}\u{4e2d}");
    assert_eq!(string_of(&[]), "");
    assert_eq!(copy_chars(&['x', 'y']), vec!['x', 'y']);
    assert!(same_chars(&['x', 'y'], &['x', 'y']));
    assert!(same_chars(&[], &[]));
    assert!(!same_chars(&['x', 'y'], &['x']));
    assert!(!same_chars(&['x', 'y'], &['x', 'z']));
}

#[test]
fn cursor_reads_numbers_and_words() {
    let mut p = Parser::new("  12\u{a0}red,x");
    assert_eq!(p.peek(), Some(' '));
    assert_eq!(p.parse_int(), Ok(12));
    assert_eq!(p.peek(), Some('\u{a0}'));
    assert_eq!(p.parse_word(), Ok("red".to_string()));
    assert_eq!(p.step_over(';'), Err(()));
    assert_eq!(p.step_over(','), Ok(()));
    assert_eq!(p.parse_int(), Err(IntError::Empty));
    assert_eq!(p.parse_word(), Ok("x".to_string()));
    assert!(p.at_end());
    assert_eq!(p.peek(), None);
    assert_eq!(p.parse_word(), Ok(String::new()));
    assert_eq!(p.parse_int(), Err(IntError::Empty));
    assert_eq!(p.step_over('x'), Err(()));
    assert_eq!(p.skip(0), Ok(()));
    assert_eq!(p.skip(1), Err(()));
}

#[test]
fn cursor_moves_as_far_as_it_reads() {
    let mut p = Parser::over(chars_of("Game 7:  4294967296 4294967295zz"));
    assert_eq!(p.skip(5), Ok(()));
    assert_eq!(p.parse_int_up_to(6), Err(IntError::Overflow));
    // The digits are read even where they are no number of the size.
    assert_eq!(p.peek(), Some(':'));
    assert_eq!(p.step_over(':'), Ok(()));
    p.ignore_whitespace();
    assert_eq!(p.peek(), Some('4'));
    assert_eq!(p.parse_int(), Err(IntError::Overflow));
    assert_eq!(p.parse_int(), Ok(4294967295));
    // A word must start with a letter where the text goes on.
    let mut q = Parser::new(" 1x");
    assert_eq!(q.parse_word(), Err(()));
    assert_eq!(q.peek(), Some('1'));
    assert_eq!(p.parse_word(), Ok("zz".to_string()));
    let mut r = Parser::new("abc");
    assert_eq!(r.skip(5), Err(()));
    assert!(r.at_end());
    let mut s = Parser::new("\u{e9}t\u{e9} 007 ");
    assert_eq!(s.parse_word(), Ok("\u{e9}t\u{e9}".to_string()));
    assert_eq!(s.parse_int_up_to(7), Ok(7));
    assert!(!s.at_end());
    s.ignore_whitespace();
    assert!(s.at_end());
}
