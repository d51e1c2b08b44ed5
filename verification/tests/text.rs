use netneighbor::text::{
    char_is_space, chars_of, copy_range, find, matches_at, same_text, split_lines, split_tokens,
    starts_with, string_of, trim_enclosing,
};

fn strings(parts: Vec<Vec<char>>) -> Vec<String> {
    parts.iter().map(string_of).collect()
}

#[test]
fn characters_round_trip() {
    assert_eq!(chars_of("a\u{e9}z"), vec!['a', '\u{e9}', 'z']);
    assert_eq!(chars_of(""), Vec::<char>::new());
    assert_eq!(string_of(&vec!['w', 'l', 'a', 'n', '0']), "wlan0");
    assert_eq!(string_of(&chars_of("gr\u{fc}n \u{3000}x")), "gr\u{fc}n \u{3000}x");
    assert_eq!(copy_range(&chars_of("abcdef"), 2, 4), vec!['c', 'd']);
    assert_eq!(copy_range(&chars_of("abcdef"), 3, 3), Vec::<char>::new());
}

#[test]
fn white_space_is_what_unicode_says() {
    for c in [' ', '\t', '\n', '\r', '\u{b}', '\u{c}', '\u{85}', '\u{a0}', '\u{1680}', '\u{2000}',
        '\u{200a}', '\u{2028}', '\u{2029}', '\u{202f}', '\u{205f}', '\u{3000}']
    {
        assert!(char_is_space(c));
    }
    for c in ['a', '0', '(', '\u{8}', '\u{e}', '\u{1f}', '\u{200b}', '\u{feff}', '\u{180e}'] {
        assert!(!char_is_space(c));
    }
}

#[test]
fn white_space_agrees_with_the_standard_library() {
    let mut code: u32 = 0;
    while code <= 0x3100 {
        if let Some(c) = char::from_u32(code) {
            assert_eq!(char_is_space(c), c.is_whitespace());
        }
        code += 1;
    }
}

#[test]
fn lines_end_at_line_feeds() {
    assert_eq!(strings(split_lines(&chars_of("a\nbc\n\nd"))), vec!["a", "bc", "", "d"]);
    assert_eq!(strings(split_lines(&chars_of("a\n"))), vec!["a"]);
    assert_eq!(strings(split_lines(&chars_of("\n"))), vec![""]);
    assert_eq!(strings(split_lines(&chars_of(""))), Vec::<String>::new());
    assert_eq!(strings(split_lines(&chars_of("a\r\nb"))), vec!["a\r", "b"]);
}

#[test]
fn tokens_are_runs_without_white_space() {
    assert_eq!(strings(split_tokens(&chars_of("  a bc\t\td  "))), vec!["a", "bc", "d"]);
    assert_eq!(strings(split_tokens(&chars_of("abc"))), vec!["abc"]);
    assert_eq!(strings(split_tokens(&chars_of(" \t "))), Vec::<String>::new());
    assert_eq!(strings(split_tokens(&chars_of(""))), Vec::<String>::new());
}

#[test]
fn tokens_agree_with_the_standard_library() {
    let texts =
        ["? (192.168.1.5) at aa:bb:cc:dd:ee:ff [ether] on wlan0", " x\u{a0}y\r\nz ", "\u{3000}"];
    for text in texts {
        let expected: Vec<String> = text.split_whitespace().map(|t| t.to_string()).collect();
        assert_eq!(strings(split_tokens(&chars_of(text))), expected);
    }
}

#[test]
fn patterns_are_found_at_their_first_place() {
    let text = chars_of("station on wlan0");
    assert_eq!(find(&text, &chars_of("at")), Some(2));
    assert_eq!(find(&text, &chars_of("on")), Some(5));
    assert_eq!(find(&text, &chars_of("n0")), Some(14));
    assert_eq!(find(&text, &chars_of("n00")), None);
    assert_eq!(find(&text, &chars_of("")), Some(0));
    assert_eq!(find(&chars_of(""), &chars_of("at")), None);
    assert_eq!(find(&chars_of(""), &chars_of("")), Some(0));
    assert!(matches_at(&text, &chars_of("on"), 8));
    assert!(!matches_at(&text, &chars_of("on"), 9));
    assert!(!matches_at(&text, &chars_of("n00"), 14));
    assert!(matches_at(&text, &chars_of(""), 16));
    assert!(!matches_at(&text, &chars_of(""), 17));
}

#[test]
fn texts_are_compared_character_by_character() {
    assert!(same_text(&chars_of("dev"), &chars_of("dev")));
    assert!(!same_text(&chars_of("dev"), &chars_of("dew")));
    assert!(!same_text(&chars_of("dev"), &chars_of("de")));
    assert!(same_text(&chars_of(""), &chars_of("")));
    assert!(starts_with(&chars_of("127.0.0.1"), &chars_of("127.")));
    assert!(!starts_with(&chars_of("127"), &chars_of("127.")));
    assert!(!starts_with(&chars_of("128.0.0.1"), &chars_of("127.")));
    assert!(starts_with(&chars_of("abc"), &chars_of("")));
}

#[test]
fn brackets_are_trimmed_from_both_ends() {
    assert_eq!(string_of(&trim_enclosing(&chars_of("(1.2.3.4)"), '(', ')')), "1.2.3.4");
    assert_eq!(string_of(&trim_enclosing(&chars_of("((1.2.3.4"), '(', ')')), "1.2.3.4");
    assert_eq!(string_of(&trim_enclosing(&chars_of("1.2.3.4))"), '(', ')')), "1.2.3.4");
    assert_eq!(string_of(&trim_enclosing(&chars_of("(1.(2).4)"), '(', ')')), "1.(2).4");
    assert_eq!(string_of(&trim_enclosing(&chars_of("(()"), '(', ')')), "");
    assert_eq!(string_of(&trim_enclosing(&chars_of(""), '(', ')')), "");
    assert_eq!(string_of(&trim_enclosing(&chars_of("xxaxx"), 'x', 'x')), "a");
    assert_eq!(string_of(&trim_enclosing(&chars_of("xxx"), 'x', 'x')), "");
}
