use git_varro::text::{
    can_shorten, chars_of, decimal, first_line, is_white_space, joined, same_text, short_sha,
    split_lines, string_of, trim,
};

#[test]
fn white_space_is_that_of_std() {
    for n in 0..=0x10FFFFu32 {
        if let Some(c) = char::from_u32(n) {
            assert_eq!(is_white_space(c), c.is_whitespace(), "U+{:04X}", n);
        }
    }
}

#[test]
fn trim_is_that_of_std() {
    for s in ["", " ", "a", " a", "a ", "\t a b \r\n", "\u{3000}x\u{85}", "no", "  \n  "] {
        assert_eq!(trim(s), s.trim());
        assert_eq!(trim(trim(s)), trim(s));
    }
    assert_eq!(trim("  fix bug\n"), "fix bug");
}

#[test]
fn first_line_without_trailing_space() {
    assert_eq!(first_line("fix: a bug  \n\nlong story"), "fix: a bug");
    assert_eq!(first_line("one\r\ntwo"), "one");
    assert_eq!(first_line("only"), "only");
    assert_eq!(first_line(""), "");
    assert_eq!(first_line("\nsecond"), "");
    assert_eq!(first_line("  indented \t"), "  indented");
    assert_eq!(first_line("ünï\u{3000}\n"), "ünï");
}

#[test]
fn first_line_is_that_of_std() {
    for s in ["", "\r", "a\r", "a\r\r\nb", "\n\n", "x \r\n y", "\u{2028}\nq"] {
        assert_eq!(first_line(s), s.lines().next().unwrap_or("").trim_end());
    }
}

#[test]
fn lines_are_those_of_std() {
    for s in [
        "", "\n", "a", "a\n", "a\nb", "a\r\nb\r\n", "a\rb", "a\r", "\r\n", "\n\na\n\n", "x\r\r\ny",
    ] {
        let wanted: Vec<String> = s.lines().map(|l| l.to_string()).collect();
        assert_eq!(split_lines(s), wanted, "{:?}", s);
    }
    assert_eq!(split_lines("a\r\n\nb\r"), vec!["a", "", "b\r"]);
}

#[test]
fn decimal_numbers() {
    assert_eq!(decimal(0), "0");
    assert_eq!(decimal(9), "9");
    assert_eq!(decimal(10), "10");
    assert_eq!(decimal(1203), "1203");
    assert_eq!(decimal(usize::MAX), usize::MAX.to_string());
}

#[test]
fn short_names_have_seven_bytes() {
    assert_eq!(short_sha("0123456789abcdef"), "0123456");
    assert_eq!(short_sha("0123456"), "0123456");
    assert_eq!(short_sha("0123"), "0123");
    assert_eq!(short_sha(""), "");
    assert_eq!(short_sha("aäbäc!xyz"), "aäbäc");
}

#[test]
fn a_cut_inside_a_character_is_refused() {
    assert!(can_shorten("0123456789"));
    assert!(can_shorten("äöü"));
    assert!(can_shorten("ääää") == false);
    assert!(can_shorten("aäää"));
}

#[test]
fn characters_and_back() {
    let chars = chars_of("aé↑");
    assert_eq!(chars, vec!['a', 'é', '↑']);
    assert_eq!(string_of(&chars, 1, 3), "é↑");
    assert_eq!(string_of(&chars, 2, 2), "");
    assert_eq!(joined("ab", "c"), "abc");
    assert!(same_text("é", "é"));
    assert!(!same_text("a", "b"));
}
