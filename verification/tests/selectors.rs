use csskit::selectors::{
    collect_file_matches, exit_code, match_candidate, match_line, parse_file_selectors,
    search_target, Search, SelectorMatchResult, SourceFile,
};
use csskit::text::to_chars;

fn text(lines: &[&str]) -> String {
    lines.iter().map(|line| format!("{line}\n")).collect()
}

fn readable(path: &str, lines: &[&str]) -> SourceFile {
    SourceFile { path: path.to_string(), content: Ok(text(lines)) }
}

fn unreadable(path: &str, reason: &str) -> SourceFile {
    SourceFile { path: path.to_string(), content: Err(reason.to_string()) }
}

fn found(path: &str, line: usize, selector: &str) -> SelectorMatchResult {
    SelectorMatchResult::new(path.to_string(), line, selector.to_string())
}

fn button_file() -> SourceFile {
    readable(
        "a.css",
        &[".button {", "  color: red;", "}", ".button-outline {", "  color: blue;", "}"],
    )
}

#[test]
fn new_keeps_its_arguments() {
    let result = SelectorMatchResult::new("dir/a.css".to_string(), 12, ".button".to_string());
    assert_eq!(result.file_name, "dir/a.css");
    assert_eq!(result.line_num, 12);
    assert_eq!(result.selector, ".button");
}

#[test]
fn extractor_reports_one_based_line_numbers() {
    let file = "/* head */\n\n.a {\n  color: red;\n.b {\n";
    let candidates = parse_file_selectors(file);
    assert_eq!(candidates, vec![(3, ".a {".to_string()), (5, ".b {".to_string())]);
}

#[test]
fn extractor_counts_from_the_first_line() {
    let candidates = parse_file_selectors("a {\nb {\nc");
    assert_eq!(candidates, vec![(1, "a {".to_string()), (2, "b {".to_string())]);
}

#[test]
fn extractor_keeps_the_raw_text() {
    let candidates = parse_file_selectors("  .x , .y {  \n} /* { */\n");
    assert_eq!(
        candidates,
        vec![(1, "  .x , .y {  ".to_string()), (2, "} /* { */".to_string())]
    );
}

#[test]
fn extractor_finds_nothing_without_braces() {
    assert!(parse_file_selectors("").is_empty());
    assert!(parse_file_selectors("\ncolor: red;\n}\n").is_empty());
}

#[test]
fn extractor_does_not_join_lines() {
    let candidates = parse_file_selectors(".split\n{\n}\n");
    assert_eq!(candidates, vec![(2, "{".to_string())]);
}

#[test]
fn matcher_gives_a_match_only_for_lines_with_the_query() {
    assert_eq!(
        match_line("button", "a.css", 4, ".button-outline {"),
        Some(found("a.css", 4, ".button-outline"))
    );
    assert_eq!(match_line("Button", "a.css", 4, ".button-outline {"), None);
    assert_eq!(match_line("card", "a.css", 4, ".button-outline {"), None);
}

#[test]
fn matcher_sees_the_raw_text_not_the_selector() {
    assert_eq!(match_line("{", "a.css", 1, ".a {"), Some(found("a.css", 1, ".a")));
    assert_eq!(match_line("a {", "a.css", 1, ".a {"), Some(found("a.css", 1, ".a")));
}

#[test]
fn matcher_on_decoded_query_agrees() {
    let query = to_chars("nav");
    let path = "x/y.css".to_string();
    assert_eq!(
        match_candidate(&query, &path, 9, &"  nav.top { ".to_string()),
        Some(found("x/y.css", 9, "  nav.top"))
    );
    assert_eq!(match_candidate(&query, &path, 9, &"footer {".to_string()), None);
}

#[test]
fn collecting_appends_to_the_list() {
    let mut list = vec![found("first.css", 3, ".kept")];
    collect_file_matches(
        &to_chars("b"),
        &"second.css".to_string(),
        ".a {\n.b {\nb\n.bb {",
        &mut list,
    );
    assert_eq!(
        list,
        vec![
            found("first.css", 3, ".kept"),
            found("second.css", 2, ".b"),
            found("second.css", 4, ".bb"),
        ]
    );
}

#[test]
fn search_finds_both_button_selectors() {
    let report = search_target("button", &vec![button_file()], false);
    assert_eq!(
        report.match_list,
        vec![found("a.css", 1, ".button"), found("a.css", 4, ".button-outline")]
    );
    assert_eq!(report.tally.len(), 2);
    assert_eq!(report.tally.get(".button"), Some(1));
    assert_eq!(report.tally.get(".button-outline"), Some(1));
    assert!(report.diagnostics.is_empty());
    assert_eq!(report.persisted, None);
}

#[test]
fn search_with_logging_renders_header_and_four_rows() {
    let report = search_target("button", &vec![button_file()], true);
    let document = report.persisted.expect("logging was on").expect("encoding");
    let text = String::from_utf8(document).expect("utf-8");
    assert_eq!(
        text,
        "Selector,Count,Locations\n\
         .button,1,\n\
         ,,Line 1: a.css\n\
         .button-outline,1,\n\
         ,,Line 4: a.css\n"
    );
    assert_eq!(text.lines().count(), 5);
}

#[test]
fn search_without_match_is_empty() {
    let report = search_target("card", &vec![button_file()], true);
    assert!(report.match_list.is_empty());
    assert_eq!(report.tally.len(), 0);
    assert_eq!(report.tally.get(".button"), None);
    let document = report.persisted.expect("logging was on").expect("encoding");
    assert_eq!(document, b"Selector,Count,Locations\n".to_vec());
}

#[test]
fn search_of_no_files_succeeds_with_nothing() {
    let report = search_target("button", &Vec::new(), false);
    assert!(report.match_list.is_empty());
    assert_eq!(report.tally.len(), 0);
    assert!(report.diagnostics.is_empty());
    assert_eq!(report.persisted, None);
    assert_eq!(exit_code(false, true), 0);

    let logged = search_target("button", &Vec::new(), true);
    assert_eq!(logged.persisted, Some(Ok(b"Selector,Count,Locations\n".to_vec())));
    assert_eq!(exit_code(true, true), 0);
}

#[test]
fn unreadable_file_is_skipped_with_a_diagnostic() {
    let files = vec![
        readable("a.css", &[".a {"]),
        unreadable("b.css", "stream did not contain valid UTF-8"),
        readable("c.css", &[".a {", ".c {"]),
        unreadable("d.css", "Permission denied (os error 13)"),
    ];
    let report = search_target("", &files, false);
    assert_eq!(
        report.match_list,
        vec![found("a.css", 1, ".a"), found("c.css", 1, ".a"), found("c.css", 2, ".c")]
    );
    assert_eq!(
        report.diagnostics,
        vec![
            "Selector parsing error: stream did not contain valid UTF-8".to_string(),
            "Selector parsing error: Permission denied (os error 13)".to_string(),
        ]
    );
    assert_eq!(report.tally.get(".a"), Some(2));
    assert_eq!(report.tally.get(".c"), Some(1));
}

#[test]
fn match_count_is_the_number_of_qualifying_lines() {
    let files = vec![
        readable("one.css", &[".btn {", ".btn:hover {", "btn", "}", ".other {"]),
        readable("sub/two.css", &["", ".btn {", "a.btn, b.btn {"]),
        unreadable("three.css", "gone"),
        readable("four.css", &["btn", "btn }"]),
    ];
    let mut expected = 0;
    for file in &files {
        if let Ok(text) = &file.content {
            expected += text.lines().filter(|l| l.contains('{') && l.contains("btn")).count();
        }
    }
    let report = search_target("btn", &files, false);
    assert_eq!(expected, 4);
    assert_eq!(report.match_list.len(), expected);
}

#[test]
fn line_numbers_are_positions_within_each_file() {
    let files = vec![
        readable("one.css", &["x", "x", ".a {", "x", ".a {"]),
        readable("two.css", &[".a {"]),
    ];
    let report = search_target(".a", &files, false);
    let places: Vec<(String, usize)> =
        report.match_list.iter().map(|m| (m.file_name.clone(), m.line_num)).collect();
    assert_eq!(
        places,
        vec![
            ("one.css".to_string(), 3),
            ("one.css".to_string(), 5),
            ("two.css".to_string(), 1)
        ]
    );
    for m in &report.match_list {
        let file = files.iter().find(|f| f.path == m.file_name).expect("file");
        let lines: Vec<&str> = file.content.as_ref().expect("readable").lines().collect();
        assert_eq!(lines[m.line_num - 1].replacen('{', "", 1).trim_end(), m.selector);
    }
}

#[test]
fn tally_does_not_depend_on_file_order() {
    let one = || readable("one.css", &[".a {", ".b {", ".a {"]);
    let two = || readable("two.css", &[".b {", ".c {"]);
    let three = || readable("three.css", &[".a {"]);
    let forward = search_target("", &vec![one(), two(), three()], false);
    let backward = search_target("", &vec![three(), two(), one()], false);
    let again = search_target("", &vec![one(), two(), three()], false);
    for selector in [".a", ".b", ".c", ".d"] {
        assert_eq!(forward.tally.get(selector), backward.tally.get(selector));
        assert_eq!(forward.tally.get(selector), again.tally.get(selector));
    }
    assert_eq!(forward.tally.get(".a"), Some(3));
    assert_eq!(forward.tally.get(".b"), Some(2));
    assert_eq!(forward.tally.get(".c"), Some(1));
    assert_eq!(forward.tally.get(".d"), None);
    assert_eq!(forward.tally.len(), backward.tally.len());
    assert_eq!(forward.match_list, again.match_list);
    assert_eq!(forward.tally.as_entries(), again.tally.as_entries());
}

#[test]
fn search_is_case_sensitive() {
    let files = vec![readable("a.css", &[".Button {", ".button {"])];
    let report = search_target("Button", &files, false);
    assert_eq!(report.match_list, vec![found("a.css", 1, ".Button")]);
}

#[test]
fn exit_code_is_one_only_when_persisting_failed() {
    assert_eq!(exit_code(true, false), 1);
    assert_eq!(exit_code(true, true), 0);
    assert_eq!(exit_code(false, true), 0);
    assert_eq!(exit_code(false, false), 0);
}

#[test]
fn scanning_file_by_file_gives_what_the_whole_search_gives() {
    let files = vec![
        readable("one.css", &[".a {", ".b {"]),
        unreadable("two.css", "broken"),
        readable("three.css", &["x", ".a {"]),
    ];
    let mut search = Search::new(".a");
    for file in &files {
        search.scan_file(file);
    }
    let stepwise = search.finish(true);
    let whole = search_target(".a", &files, true);
    assert_eq!(stepwise.match_list, whole.match_list);
    assert_eq!(stepwise.diagnostics, whole.diagnostics);
    assert_eq!(stepwise.tally.as_entries(), whole.tally.as_entries());
    assert_eq!(stepwise.persisted, whole.persisted);
    assert_eq!(
        stepwise.match_list,
        vec![found("one.css", 1, ".a"), found("three.css", 2, ".a")]
    );
}

#[test]
fn search_without_files_finishes_empty() {
    let report = Search::new("anything").finish(false);
    assert!(report.match_list.is_empty());
    assert!(report.diagnostics.is_empty());
    assert_eq!(report.tally.len(), 0);
    assert_eq!(report.persisted, None);
}

#[test]
fn extractor_takes_windows_line_endings() {
    let candidates = parse_file_selectors("/* x */\r\n.a {\r\n}\r\n.b {");
    assert_eq!(candidates, vec![(2, ".a {".to_string()), (4, ".b {".to_string())]);
}

#[test]
fn extractor_counts_empty_lines() {
    let candidates = parse_file_selectors("\n\n\n.a {\n\n.b {\n");
    assert_eq!(candidates, vec![(4, ".a {".to_string()), (6, ".b {".to_string())]);
}
