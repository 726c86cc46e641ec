use advent::order::sort_order;
use advent::text::{
    char_in_class, chars_of, copy_span, is_space_char, parse_number, parse_numbers, run_end,
    same_text, split_fields, split_lines, split_pieces, CharClass,
};

fn chars(s: &str) -> Vec<char> {
    s.chars().collect()
}

fn strings(parts: Vec<Vec<char>>) -> Vec<String> {
    parts.into_iter().map(|p| p.into_iter().collect()).collect()
}

#[test]
fn it_lists_the_characters_of_a_text() {
    assert_eq!(chars_of("a é\n"), vec!['a', ' ', 'é', '\n']);
    assert_eq!(chars_of(""), vec![]);
}

#[test]
fn lines_end_at_line_feeds() {
    assert_eq!(strings(split_lines(&chars("a\nb"))), vec!["a", "b"]);
    assert_eq!(strings(split_lines(&chars("a\nb\n"))), vec!["a", "b"]);
    assert_eq!(strings(split_lines(&chars("a\n\nb"))), vec!["a", "", "b"]);
    assert_eq!(strings(split_lines(&chars("\n"))), vec![""]);
    assert_eq!(strings(split_lines(&chars("\n\n"))), vec!["", ""]);
    assert_eq!(strings(split_lines(&chars(""))), Vec::<String>::new());
    assert_eq!(strings(split_lines(&chars("abc"))), vec!["abc"]);
}

#[test]
fn a_carriage_return_belongs_to_the_line_feed_after_it() {
    assert_eq!(strings(split_lines(&chars("a\r\nb\r\n"))), vec!["a", "b"]);
    assert_eq!(strings(split_lines(&chars("a\r\n\r\nb"))), vec!["a", "", "b"]);
    assert_eq!(strings(split_lines(&chars("a\rb\nc\r"))), vec!["a\rb", "c\r"]);
    assert_eq!(strings(split_lines(&chars("a\r\r\n"))), vec!["a\r"]);
    assert_eq!(strings(split_lines(&chars("\r\n"))), vec![""]);
}

#[test]
fn it_splits_lines_as_the_standard_library_does() {
    for text in ["", "a", "a\n", "\n", "a\r\n", "a\r", "\r", "a\n\nb\r\n\r\n", "x\r\ny\rz\n\r"] {
        let expected: Vec<String> = text.lines().map(|l| l.to_string()).collect();
        assert_eq!(strings(split_lines(&chars(text))), expected);
    }
}

#[test]
fn fields_are_parted_by_white_space() {
    assert_eq!(strings(split_fields(&chars("  a bc\t d\u{a0}e\u{3000} "))), vec!["a", "bc", "d", "e"]);
    assert_eq!(strings(split_fields(&chars(""))), Vec::<String>::new());
    assert_eq!(strings(split_fields(&chars(" \t "))), Vec::<String>::new());
    assert_eq!(strings(split_fields(&chars("one"))), vec!["one"]);
    for text in ["a  b", " a\u{2003}b\u{85}c ", "x\u{200b}y", "\u{1680}q\u{2028}r\u{205f}s"] {
        let expected: Vec<String> = text.split_whitespace().map(|l| l.to_string()).collect();
        assert_eq!(strings(split_fields(&chars(text))), expected);
    }
}

#[test]
fn white_space_is_what_unicode_says_it_is() {
    for code in 0..0x3100u32 {
        if let Some(c) = char::from_u32(code) {
            assert_eq!(is_space_char(c), c.is_whitespace(), "{:x}", code);
        }
    }
    assert!(!is_space_char('\u{feff}'));
    assert!(!is_space_char('\u{10ffff}'));
}

#[test]
fn it_tells_the_classes_of_characters() {
    assert!(char_in_class(CharClass::Blank, ' '));
    assert!(!char_in_class(CharClass::Blank, 'x'));
    assert!(char_in_class(CharClass::Solid, 'x'));
    assert!(!char_in_class(CharClass::Solid, '\t'));
    assert!(char_in_class(CharClass::Digit, '0'));
    assert!(char_in_class(CharClass::Digit, '9'));
    assert!(!char_in_class(CharClass::Digit, '/'));
    assert!(!char_in_class(CharClass::Digit, ':'));
    assert!(!char_in_class(CharClass::Digit, '٣'));
    assert!(char_in_class(CharClass::Except(';', ','), 'x'));
    assert!(!char_in_class(CharClass::Except(';', ','), ';'));
    assert!(!char_in_class(CharClass::Except(';', ','), ','));
}

#[test]
fn it_finds_the_end_of_a_run() {
    let text = chars("ab12  cd");
    assert_eq!(run_end(&text, 0, CharClass::Solid), 4);
    assert_eq!(run_end(&text, 2, CharClass::Digit), 4);
    assert_eq!(run_end(&text, 0, CharClass::Digit), 0);
    assert_eq!(run_end(&text, 4, CharClass::Blank), 6);
    assert_eq!(run_end(&text, 6, CharClass::Solid), 8);
    assert_eq!(run_end(&text, 8, CharClass::Solid), 8);
    assert_eq!(copy_span(&text, 2, 4), vec!['1', '2']);
    assert_eq!(copy_span(&text, 3, 3), vec![]);
}

#[test]
fn pieces_are_parted_by_each_separator() {
    let class = CharClass::Except(';', ',');
    assert_eq!(strings(split_pieces(&chars("a,b;c"), class)), vec!["a", "b", "c"]);
    assert_eq!(strings(split_pieces(&chars("a,,b"), class)), vec!["a", "", "b"]);
    assert_eq!(strings(split_pieces(&chars(",a;"), class)), vec!["", "a", ""]);
    assert_eq!(strings(split_pieces(&chars(""), class)), vec![""]);
    assert_eq!(strings(split_pieces(&chars("abc"), class)), vec!["abc"]);
    for text in ["", ";", "a;b,c", ",,", "x ; y"] {
        let expected: Vec<String> = text.split(&[';', ','][..]).map(|l| l.to_string()).collect();
        assert_eq!(strings(split_pieces(&chars(text), class)), expected);
    }
}

#[test]
fn it_reads_decimal_numbers() {
    assert_eq!(parse_number(&chars("0")), Some(0));
    assert_eq!(parse_number(&chars("007")), Some(7));
    assert_eq!(parse_number(&chars("+42")), Some(42));
    assert_eq!(parse_number(&chars("18446744073709551615")), Some(u64::MAX));
    assert_eq!(parse_number(&chars("18446744073709551616")), None);
    assert_eq!(parse_number(&chars("99999999999999999999999999")), None);
    assert_eq!(parse_number(&chars("")), None);
    assert_eq!(parse_number(&chars("+")), None);
    assert_eq!(parse_number(&chars("-1")), None);
    assert_eq!(parse_number(&chars("++1")), None);
    assert_eq!(parse_number(&chars("1+")), None);
    assert_eq!(parse_number(&chars("1 ")), None);
    assert_eq!(parse_number(&chars("12a")), None);
    assert_eq!(parse_number(&chars("٣")), None);
    for text in ["0", "+0", "1234567890", "+", "", "-0", "18446744073709551615", "18446744073709551616", "0x10"] {
        assert_eq!(parse_number(&chars(text)), text.parse::<u64>().ok());
    }
}

#[test]
fn it_reads_a_list_of_numbers() {
    let fields = vec![chars("x"), chars("1"), chars("22"), chars("333")];
    assert_eq!(parse_numbers(&fields, 1), Some(vec![1, 22, 333]));
    assert_eq!(parse_numbers(&fields, 3), Some(vec![333]));
    assert_eq!(parse_numbers(&fields, 4), Some(vec![]));
    assert_eq!(parse_numbers(&fields, 0), None);
}

#[test]
fn it_compares_texts() {
    assert!(same_text(&chars("seeds:"), &chars("seeds:")));
    assert!(same_text(&chars(""), &chars("")));
    assert!(!same_text(&chars("seeds:"), &chars("seeds")));
    assert!(!same_text(&chars("seeds:"), &chars("seedz:")));
}

#[test]
fn it_orders_keys_and_keeps_equal_keys_in_place() {
    assert_eq!(sort_order(&vec![30, 10, 20]), vec![1, 2, 0]);
    assert_eq!(sort_order(&vec![5, 1, 5, 1, 5]), vec![1, 3, 0, 2, 4]);
    assert_eq!(sort_order(&vec![]), Vec::<usize>::new());
    assert_eq!(sort_order(&vec![7]), vec![0]);
    assert_eq!(sort_order(&vec![u64::MAX, 0, u64::MAX, 0]), vec![1, 3, 0, 2]);
    let keys: Vec<u64> = (0..1000).map(|i| (i * 7919 + 13) % 101).collect();
    let order = sort_order(&keys);
    let mut expected: Vec<usize> = (0..keys.len()).collect();
    expected.sort_by_key(|&i| keys[i]);
    assert_eq!(order, expected);
}
