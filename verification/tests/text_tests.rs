use gha_executor::text::{
    concat2, decimal_text, find_class, join, push_chars, split_after, split_lines, starts_with,
    strip_prefix, to_chars, to_text, trim, trim_back, trim_front, white_space, CharClass,
};

const SAMPLES: [&str; 12] = [
    "",
    "\n",
    "a",
    "a\n",
    "a\r\nb",
    "a\r\r\n\rb\r",
    "\r\n\r\n",
    "  padded\t ",
    "\u{3000}wide\u{a0}",
    "one\n\ntwo\n",
    "é\nü\n",
    "end\r",
];

fn text_lines(s: &str) -> Vec<String> {
    split_lines(s).iter().map(|line| to_text(line)).collect()
}

#[test]
fn white_space_is_the_unicode_property() {
    for code in 0..=0x10ffffu32 {
        if let Some(c) = char::from_u32(code) {
            assert_eq!(white_space(c), c.is_whitespace(), "{:x}", code);
        }
    }
}

#[test]
fn lines_end_with_a_line_feed() {
    assert_eq!(text_lines("a\r\nb\n"), vec!["a", "b"]);
    assert_eq!(text_lines("a\r"), vec!["a\r"]);
    assert_eq!(text_lines("\n\n"), vec!["", ""]);
    for s in SAMPLES {
        let expected: Vec<String> = s.lines().map(|line| line.to_string()).collect();
        assert_eq!(text_lines(s), expected);
    }
}

#[test]
fn trimming_takes_a_class_from_the_ends() {
    for s in SAMPLES {
        let chars = to_chars(s);
        assert_eq!(to_text(trim(&chars, CharClass::WhiteSpace)), s.trim());
        assert_eq!(to_text(trim_front(&chars, CharClass::WhiteSpace)), s.trim_start());
        assert_eq!(to_text(trim_back(&chars, CharClass::WhiteSpace)), s.trim_end());
    }
    let quoted = to_chars(" '\"./a.js\"' ");
    assert_eq!(to_text(trim(&quoted, CharClass::Quoting)), "./a.js");
    let ended = to_chars("x;;");
    assert_eq!(to_text(trim_back(&ended, CharClass::Semicolon)), "x");
    assert_eq!(to_text(trim_front(&ended, CharClass::Semicolon)), "x;;");
}

#[test]
fn searching_finds_the_first() {
    let s = to_chars("a b{c(d");
    assert_eq!(find_class(&s, CharClass::NameEnd), 1);
    assert_eq!(find_class(&s, CharClass::Parenthesis), 5);
    assert_eq!(find_class(&s, CharClass::Semicolon), 7);
    let line = to_chars("x from y from z");
    assert_eq!(split_after(&line, " from ").map(to_text), Some("y from z".to_string()));
    assert_eq!(split_after(&line, " to ").map(to_text), None);
    assert!(starts_with(&line, "x fr"));
    assert!(!starts_with(&line, "x fromage"));
    assert!(!starts_with(&to_chars("x"), "x "));
    assert_eq!(strip_prefix(&line, "x ").map(to_text), Some("from y from z".to_string()));
    assert_eq!(strip_prefix(&line, "y").map(to_text), None);
}

#[test]
fn joining_puts_the_separator_between() {
    assert_eq!(join(&vec![], ", "), "");
    assert_eq!(join(&vec!["a".to_string()], ", "), "a");
    assert_eq!(join(&vec!["a".to_string(), "".to_string(), "b".to_string()], ", "), "a, , b");
    assert_eq!(concat2("ab", "cd"), "abcd");
    let mut s = "ab".to_string();
    push_chars(&mut s, &['c', 'é']);
    assert_eq!(s, "abcé");
}

#[test]
fn decimal_notation() {
    for n in [0usize, 7, 9, 10, 99, 100, 12345, usize::MAX] {
        assert_eq!(decimal_text(n), n.to_string());
    }
}
