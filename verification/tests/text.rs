use csskit::text::{
    contains_chars, decimal_string, first_brace, line_contains, line_has_brace, normalize_chars,
    normalize_line, push_decimal, split_lines, strip_brace, to_chars, trimmed_len,
};

#[test]
fn to_chars_decodes_every_character() {
    assert_eq!(to_chars(""), Vec::<char>::new());
    assert_eq!(to_chars("a{b"), vec!['a', '{', 'b']);
    assert_eq!(to_chars("é→x"), vec!['é', '→', 'x']);
}

#[test]
fn brace_is_found_anywhere_in_the_line() {
    assert!(line_has_brace(".button {"));
    assert!(line_has_brace("{"));
    assert!(line_has_brace("a { b { c"));
    assert!(line_has_brace("/* { */"));
    assert!(!line_has_brace(""));
    assert!(!line_has_brace("color: red;"));
    assert!(!line_has_brace("}"));
}

#[test]
fn first_brace_gives_the_leftmost_position() {
    assert_eq!(first_brace(&to_chars("ab{cd{")), Some(2));
    assert_eq!(first_brace(&to_chars("{")), Some(0));
    assert_eq!(first_brace(&to_chars("é{")), Some(1));
    assert_eq!(first_brace(&to_chars("abc")), None);
    assert_eq!(first_brace(&to_chars("")), None);
}

#[test]
fn substring_test_is_literal_and_case_sensitive() {
    assert!(line_contains(".button {", "button"));
    assert!(line_contains(".button {", ".button {"));
    assert!(line_contains(".button {", "{"));
    assert!(line_contains("a.b*c", ".b*"));
    assert!(!line_contains(".button {", "Button"));
    assert!(!line_contains(".button {", "buttons"));
    assert!(!line_contains("ab", "abc"));
    assert!(!line_contains("", "a"));
}

#[test]
fn empty_query_is_in_every_line() {
    assert!(line_contains(".button {", ""));
    assert!(line_contains("", ""));
}

#[test]
fn substring_test_finds_a_match_at_the_very_end() {
    assert!(contains_chars(&to_chars("xxab"), &to_chars("ab")));
    assert!(contains_chars(&to_chars("aab"), &to_chars("ab")));
    assert!(!contains_chars(&to_chars("abx"), &to_chars("bb")));
}

#[test]
fn substring_test_agrees_with_std() {
    let lines = ["", "a", "abcabd", ".nav > li.button-outline {", "ααβ {", "{{}}"];
    let queries = ["", "a", "abd", "abc", "button", "β {", "}}", "x", "abcabdx"];
    for line in lines {
        for query in queries {
            assert_eq!(line_contains(line, query), line.contains(query), "{line:?} {query:?}");
        }
    }
}

#[test]
fn normalizing_removes_the_first_brace_and_trailing_space() {
    assert_eq!(normalize_line(".button {"), ".button");
    assert_eq!(normalize_line(".button-outline {"), ".button-outline");
    assert_eq!(normalize_line(".a{"), ".a");
    assert_eq!(normalize_line("{"), "");
}

#[test]
fn normalizing_keeps_leading_space() {
    assert_eq!(normalize_line("  .nested {  "), "  .nested");
    assert_eq!(normalize_line("\t.tab {\t\r\n"), "\t.tab");
}

#[test]
fn normalizing_removes_only_the_first_brace() {
    assert_eq!(normalize_line("a { b { c"), "a  b { c");
    assert_eq!(normalize_line(".x { color: red; }"), ".x  color: red; }");
    assert_eq!(normalize_line("{{"), "{");
}

#[test]
fn normalizing_a_line_without_brace_only_trims() {
    assert_eq!(normalize_line("no brace   "), "no brace");
    assert_eq!(normalize_line(""), "");
    assert_eq!(normalize_line("   "), "");
}

#[test]
fn normalizing_trims_unicode_white_space() {
    assert_eq!(normalize_line(".a {\u{00A0}\u{3000}\u{2003}"), ".a");
    assert_eq!(normalize_line(".a {\u{200B}"), ".a \u{200B}");
}

#[test]
fn normalizing_agrees_with_std() {
    let lines = [
        "",
        "{",
        ".button {",
        "  .a > .b {   ",
        "a { b { c } }  \t",
        "no brace here ",
        "é { ü\u{00A0}",
        " \t ",
    ];
    for line in lines {
        assert_eq!(normalize_line(line), line.replacen('{', "", 1).trim_end(), "{line:?}");
        assert_eq!(normalize_chars(&to_chars(line)), normalize_line(line));
    }
}

#[test]
fn decimal_string_of_small_numbers() {
    assert_eq!(decimal_string(0), "0");
    assert_eq!(decimal_string(7), "7");
    assert_eq!(decimal_string(9), "9");
    assert_eq!(decimal_string(10), "10");
    assert_eq!(decimal_string(1234567890), "1234567890");
}

#[test]
fn decimal_string_agrees_with_std() {
    for n in [0usize, 1, 9, 10, 11, 99, 100, 101, 4096, 65535, 1_000_000, usize::MAX] {
        assert_eq!(decimal_string(n), n.to_string());
    }
}

#[test]
fn push_decimal_appends_to_what_is_there() {
    let mut text = String::from("Line ");
    push_decimal(&mut text, 42);
    assert_eq!(text, "Line 42");
    push_decimal(&mut text, 0);
    assert_eq!(text, "Line 420");
}

#[test]
fn strip_brace_drops_one_character_at_most() {
    assert_eq!(strip_brace(&to_chars("a{b{c")), to_chars("ab{c"));
    assert_eq!(strip_brace(&to_chars("{")), to_chars(""));
    assert_eq!(strip_brace(&to_chars("abc")), to_chars("abc"));
    assert_eq!(strip_brace(&to_chars("")), to_chars(""));
}

#[test]
fn trimmed_len_stops_at_the_last_visible_character() {
    assert_eq!(trimmed_len(&to_chars("ab  \t\n")), 2);
    assert_eq!(trimmed_len(&to_chars("  ab")), 4);
    assert_eq!(trimmed_len(&to_chars("a b ")), 3);
    assert_eq!(trimmed_len(&to_chars("   ")), 0);
    assert_eq!(trimmed_len(&to_chars("")), 0);
}

#[test]
fn lines_end_at_line_feeds() {
    assert_eq!(split_lines("a\nb\nc"), vec!["a", "b", "c"]);
    assert_eq!(split_lines("a\nb\n"), vec!["a", "b"]);
    assert_eq!(split_lines("one line"), vec!["one line"]);
}

#[test]
fn empty_text_has_no_line() {
    assert_eq!(split_lines(""), Vec::<String>::new());
    assert_eq!(split_lines("\n"), vec![""]);
    assert_eq!(split_lines("\n\n"), vec!["", ""]);
    assert_eq!(split_lines("\na"), vec!["", "a"]);
}

#[test]
fn carriage_return_before_line_feed_belongs_to_the_line_ending() {
    assert_eq!(split_lines("a\r\nb\r\n"), vec!["a", "b"]);
    assert_eq!(split_lines("a\r\r\nb"), vec!["a\r", "b"]);
    assert_eq!(split_lines("\r\n"), vec![""]);
}

#[test]
fn lone_carriage_return_stays_in_the_line() {
    assert_eq!(split_lines("a\rb\n"), vec!["a\rb"]);
    assert_eq!(split_lines("a\r"), vec!["a\r"]);
    assert_eq!(split_lines("\r"), vec!["\r"]);
}

#[test]
fn line_splitting_agrees_with_std() {
    let texts = [
        "",
        "\n",
        "\r\n",
        "\r",
        "a",
        "a\n",
        "a\r\n",
        "a\r",
        "a\n\nb",
        "a\r\n\r\nb\r\n",
        ".x {\n  color: red;\n}\n",
        "é\nü\r\n→",
        "\n\r\n\r\r\n\n",
        "tail\r\n\r",
    ];
    for text in texts {
        let expected: Vec<String> = text.lines().map(|line| line.to_string()).collect();
        assert_eq!(split_lines(text), expected, "{text:?}");
    }
}

/// Texts over a small alphabet, produced by a fixed linear congruential
/// sequence so that every run sees the same ones.
fn sample_texts(alphabet: &[char], count: usize, max_len: usize) -> Vec<String> {
    let mut state: u64 = 0x2545_f491_4f6c_dd1d;
    let mut next = move || {
        state = state.wrapping_mul(6364136223846793005).wrapping_add(1442695040888963407);
        (state >> 33) as usize
    };
    let mut texts = Vec::new();
    for _ in 0..count {
        let len = next() % (max_len + 1);
        let mut text = String::new();
        for _ in 0..len {
            text.push(alphabet[next() % alphabet.len()]);
        }
        texts.push(text);
    }
    texts
}

#[test]
fn line_splitting_agrees_with_std_on_many_texts() {
    for text in sample_texts(&['a', '{', '\n', '\r', ' '], 3000, 10) {
        let expected: Vec<String> = text.lines().map(|line| line.to_string()).collect();
        assert_eq!(split_lines(&text), expected, "{text:?}");
    }
}

#[test]
fn substring_test_agrees_with_std_on_many_texts() {
    let lines = sample_texts(&['a', 'b', '{'], 400, 9);
    let queries = sample_texts(&['a', 'b', '{'], 40, 3);
    for line in &lines {
        for query in &queries {
            let expected = line.contains(query.as_str());
            assert_eq!(line_contains(line, query), expected, "{line:?} {query:?}");
        }
    }
}

#[test]
fn normalizing_agrees_with_std_on_many_texts() {
    for line in sample_texts(&['a', '{', ' ', '\t', '\u{a0}', '}'], 3000, 10) {
        assert_eq!(normalize_line(&line), line.replacen('{', "", 1).trim_end(), "{line:?}");
        assert_eq!(line_has_brace(&line), line.contains('{'), "{line:?}");
    }
}
