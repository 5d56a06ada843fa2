use hashcarve::text::{chars_of, entries, is_whitespace_char, to_lower, to_lower_char};

#[test]
fn chars_of_gives_the_characters_in_order() {
    assert_eq!(chars_of(""), Vec::<char>::new());
    assert_eq!(chars_of("a\u{e9}\u{4e2d}\n"), vec!['a', '\u{e9}', '\u{4e2d}', '\n']);
}

#[test]
fn white_space_is_what_the_standard_library_says() {
    for code in 0..=0x10FFFFu32 {
        if let Some(c) = char::from_u32(code) {
            assert_eq!(is_whitespace_char(c), c.is_whitespace(), "U+{:04X}", code);
        }
    }
}

#[test]
fn lower_case_of_a_character() {
    assert_eq!(to_lower_char('A'), 'a');
    assert_eq!(to_lower_char('F'), 'f');
    assert_eq!(to_lower_char('Z'), 'z');
    assert_eq!(to_lower_char('a'), 'a');
    assert_eq!(to_lower_char('0'), '0');
    assert_eq!(to_lower_char('@'), '@');
    assert_eq!(to_lower_char('['), '[');
    assert_eq!(to_lower_char('\u{c4}'), '\u{c4}');
}

#[test]
fn lower_case_of_every_character_is_the_ascii_lower_case() {
    for code in 0..=0x10FFFFu32 {
        if let Some(c) = char::from_u32(code) {
            assert_eq!(to_lower_char(c), c.to_ascii_lowercase());
        }
    }
}

#[test]
fn lower_case_of_a_text() {
    assert_eq!(to_lower("D41D8CD98F00B204E9800998ECF8427E"), "d41d8cd98f00b204e9800998ecf8427e");
    assert_eq!(to_lower("MiXed 123 \u{c4}"), "mixed 123 \u{c4}");
    assert_eq!(to_lower(""), "");
}

#[test]
fn lines_end_at_line_feeds_only() {
    assert_eq!(entries("ab\ncd\n\nef"), vec!["ab", "cd", "ef"]);
    assert_eq!(entries("ab\rcd"), vec!["ab\rcd"]);
    assert_eq!(entries("ab\u{2028}cd"), vec!["ab\u{2028}cd"]);
}

#[test]
fn entries_are_stripped_at_both_ends_only() {
    assert_eq!(entries("  \tab c \r"), vec!["ab c"]);
    assert_eq!(entries("a  b"), vec!["a  b"]);
}

#[test]
fn unicode_white_space_is_stripped() {
    assert_eq!(entries("\u{a0}\u{2003}x\u{3000}\u{85}"), vec!["x"]);
    assert_eq!(entries("\u{b}x\u{c}"), vec!["x"]);
    assert_eq!(entries("\u{200b}x"), vec!["\u{200b}x"]);
}

#[test]
fn entries_are_the_trimmed_lines_that_are_not_blank() {
    assert_eq!(entries("a\nb\n"), vec!["a", "b"]);
    assert_eq!(entries("  a  \r\n\r\n\n\tb c\t\n   \nd"), vec!["a", "b c", "d"]);
}

#[test]
fn entries_of_blank_text() {
    assert_eq!(entries(""), Vec::<String>::new());
    assert_eq!(entries("\n\n \n\t"), Vec::<String>::new());
}

#[test]
fn entries_of_a_single_line_without_line_feed() {
    assert_eq!(entries("abc"), vec!["abc"]);
    assert_eq!(entries(" abc "), vec!["abc"]);
}

#[test]
fn entries_agree_with_the_standard_library() {
    let texts = [
        "",
        "\n",
        "a",
        "a\n",
        "\na",
        "a\n\nb",
        " a \n b \n",
        "x\r\ny\r\n",
        "\u{a0}k\u{a0}\n\u{2028}\nz",
        "one two\n\n\n three \n",
    ];
    for text in texts {
        let expected: Vec<String> = text
            .split('\n')
            .map(|line| line.trim().to_string())
            .filter(|line| !line.is_empty())
            .collect();
        assert_eq!(entries(text), expected, "{:?}", text);
    }
}
