use mdbook_ocirun::utils::string::{
    byte_range, canonical_chars, char_is_whitespace, chars_of, format_whitespace, join,
    push_range, split_range, string_of, trimmed_len,
};
use mdbook_ocirun::utils::lines::{
    format_chars, format_whitespace_crlf, join_lines, lines_of, LineBreak,
};
use std::borrow::Cow;

#[test]
fn inline_text_loses_the_white_space_at_its_end() {
    assert_eq!(format_whitespace(Cow::Borrowed("oui\n"), true), "oui");
    assert_eq!(format_whitespace(Cow::Borrowed("  a b \t\r\n\n "), true), "  a b");
    assert_eq!(format_whitespace(Cow::Owned("42\n42\n".to_string()), true), "42\n42");
    assert_eq!(format_whitespace(Cow::Borrowed(" \n\t"), true), "");
    assert_eq!(format_whitespace(Cow::Borrowed(""), true), "");
}

#[test]
fn line_text_is_kept() {
    assert_eq!(format_whitespace(Cow::Borrowed("oui\n"), false), "oui\n");
    assert_eq!(format_whitespace(Cow::Borrowed("a \r\n\n "), false), "a \r\n\n ");
    assert_eq!(format_whitespace(Cow::Owned(String::new()), false), "");
}

#[test]
fn white_space_is_that_of_unicode() {
    let spaced = "a\u{85}\u{1680}\u{2028}\u{2029}\u{202f}\u{205f}";
    for text in ["a\u{a0}", "a\u{2003}\u{3000}", spaced] {
        assert_eq!(format_whitespace(Cow::Borrowed(text), true), "a");
        assert_eq!(text.trim_end(), "a");
    }
    assert_eq!(format_whitespace(Cow::Borrowed("a\u{200b}"), true), "a\u{200b}");
    assert_eq!(format_whitespace(Cow::Borrowed("a\u{feff}"), true), "a\u{feff}");
}

#[test]
fn white_space_agrees_with_the_standard_library() {
    for code in 0..=0x10ffff_u32 {
        if let Some(c) = char::from_u32(code) {
            assert_eq!(char_is_whitespace(c), c.is_whitespace(), "{:x}", code);
        }
    }
}

#[test]
fn trimmed_len_is_the_length_of_the_trimmed_text() {
    for text in ["", " ", "a", "a ", " a", "a \n b \n", "\u{3000}x\u{3000}"] {
        assert_eq!(trimmed_len(&chars_of(text)), text.trim_end().chars().count());
    }
}

#[test]
fn canonical_breaks_are_line_feeds() {
    let canonical = |text: &str| -> String {
        let v = chars_of(text);
        canonical_chars(&v, v.len()).into_iter().collect()
    };
    for text in ["", "a", "a\r\nb\r\n", "\r\n", "\r", "\n", "a\rb", "\r\r\n", "\n\r\n\r"] {
        assert_eq!(canonical(text), text.replace("\r\n", "\n"), "{:?}", text);
    }
    assert_eq!(canonical("a\r\nb\r\n"), "a\nb\n");
    assert_eq!(canonical("\r\r\n"), "\r\n");
    let v = chars_of("a\r\nb");
    assert_eq!(canonical_chars(&v, 2), vec!['a', '\r']);
}

#[test]
fn characters_and_strings_convert_both_ways() {
    let text = "aé\u{1f600}\r\n";
    let v = chars_of(text);
    assert_eq!(v, vec!['a', 'é', '\u{1f600}', '\r', '\n']);
    assert_eq!(string_of(&v, 0, v.len()), text);
    assert_eq!(string_of(&v, 1, 3), "é\u{1f600}");
    assert_eq!(string_of(&v, 2, 2), "");
    let mut out = vec!['x'];
    push_range(&mut out, &v, 1, 2);
    assert_eq!(out, vec!['x', 'é']);
}

#[test]
fn split_keeps_empty_parts() {
    let text: Vec<char> = "a,,b,".chars().collect();
    assert_eq!(split_range(&text, 0, 5, ','), vec!["a", "", "b", ""]);
    assert_eq!(split_range(&text, 0, 0, ','), vec![""]);
    assert_eq!(split_range(&text, 1, 3, ','), vec!["", "", ""]);
    assert_eq!(split_range(&text, 3, 4, ','), vec!["b"]);
}

#[test]
fn join_puts_the_separator_between_words() {
    assert_eq!(join(&Vec::new(), " "), "");
    assert_eq!(join(&vec!["a".to_string()], " "), "a");
    assert_eq!(join(&vec!["a".to_string(), "".to_string(), "b".to_string()], ", "), "a, , b");
}

#[test]
fn joining_the_parts_gives_the_text_again() {
    for text in ["", ",", "a", "rust,ocirun", ",a,,b,", "no separator"] {
        let v = chars_of(text);
        let parts = split_range(&v, 0, v.len(), ',');
        assert_eq!(join(&parts, ","), text);
        assert_eq!(parts, text.split(',').collect::<Vec<_>>());
    }
}

#[test]
fn lines_are_those_of_the_standard_library() {
    for text in [
        "", "a", "a\n", "a\r\n", "a\r", "\n", "\r\n", "\n\n", "a\nb", "a\r\nb\r", "a\r\r\n",
        "\r", "a\n\r\nb\n", "one\ntwo\r\nthree", "\ra\n",
    ] {
        let v = chars_of(text);
        let found: Vec<String> =
            lines_of(&v, v.len()).into_iter().map(|line| line.into_iter().collect()).collect();
        assert_eq!(found, text.lines().collect::<Vec<_>>(), "{:?}", text);
    }
    let v = chars_of("a\nb\nc");
    assert_eq!(lines_of(&v, 3), vec![vec!['a'], vec!['b']]);
}

#[test]
fn lines_are_joined_with_the_separator() {
    let lines = vec![chars_of("a"), chars_of(""), chars_of("bc")];
    let joined: String = join_lines(&lines, &chars_of("\r\n")).into_iter().collect();
    assert_eq!(joined, "a\r\n\r\nbc");
    assert!(join_lines(&Vec::new(), &chars_of("\r\n")).is_empty());
    assert_eq!(join_lines(&vec![chars_of("a")], &chars_of("\r\n")), vec!['a']);
}

#[test]
fn platform_line_breaks_end_every_line() {
    assert_eq!(format_whitespace_crlf(Cow::Borrowed("oui\n"), false), "oui\r\n");
    assert_eq!(format_whitespace_crlf(Cow::Borrowed("oui"), false), "oui\r\n");
    assert_eq!(format_whitespace_crlf(Cow::Borrowed("a\nb\r\nc"), false), "a\r\nb\r\nc\r\n");
    assert_eq!(format_whitespace_crlf(Cow::Borrowed("a\n\n"), false), "a\r\n\r\n");
    assert_eq!(format_whitespace_crlf(Cow::Borrowed(""), false), "");
    assert_eq!(format_whitespace_crlf(Cow::Borrowed("\n"), false), "");
    assert_eq!(format_whitespace_crlf(Cow::Owned("a\nb\n \n".to_string()), true), "a\r\nb");
    assert_eq!(format_whitespace_crlf(Cow::Borrowed("a \n"), true), "a");
    assert_eq!(format_whitespace_crlf(Cow::Borrowed(" \n"), true), "");
}

#[test]
fn kept_line_breaks_keep_the_text() {
    let format = |text: &str, inline: bool| -> String {
        format_chars(&chars_of(text), inline, LineBreak::Kept).into_iter().collect()
    };
    assert_eq!(format("a\r\nb\n", false), "a\r\nb\n");
    assert_eq!(format("a\r\nb\n", true), "a\r\nb");
    assert_eq!(format("", false), "");
}

#[test]
fn byte_range_cuts_the_same_part_out_of_the_string() {
    let text = "aé\u{1f600}b";
    assert_eq!(byte_range(text, &(0..0)), 0..0);
    assert_eq!(byte_range(text, &(0..1)), 0..1);
    assert_eq!(byte_range(text, &(1..2)), 1..3);
    assert_eq!(byte_range(text, &(2..3)), 3..7);
    assert_eq!(byte_range(text, &(1..4)), 1..8);
    assert_eq!(byte_range(text, &(4..4)), 8..8);
    for from in 0..=4 {
        for to in from..=4 {
            let cut: String = text.chars().skip(from).take(to - from).collect();
            assert_eq!(&text[byte_range(text, &(from..to))], cut);
        }
    }
}
