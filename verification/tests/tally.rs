use csskit::selectors::SelectorMatchResult;
use csskit::tally::{tally_matches, Tally, TallyEntry};

fn found(path: &str, line: usize, selector: &str) -> SelectorMatchResult {
    SelectorMatchResult::new(path.to_string(), line, selector.to_string())
}

fn entry(selector: &str, count: usize) -> TallyEntry {
    TallyEntry { selector: selector.to_string(), count }
}

#[test]
fn empty_tally_holds_nothing() {
    let tally = Tally::new();
    assert_eq!(tally.len(), 0);
    assert_eq!(tally.get(".a"), None);
    assert!(tally.as_entries().is_empty());
}

#[test]
fn tally_of_no_matches_is_empty() {
    let tally = tally_matches(&Vec::new());
    assert_eq!(tally.len(), 0);
    assert_eq!(tally.get(""), None);
}

#[test]
fn tally_counts_matches_that_share_a_selector() {
    let list = vec![
        found("a.css", 1, ".a"),
        found("a.css", 2, ".b"),
        found("b.css", 1, ".a"),
        found("b.css", 9, ".c"),
        found("c.css", 4, ".a"),
    ];
    let tally = tally_matches(&list);
    assert_eq!(tally.len(), 3);
    for item in tally.as_entries() {
        let sharing = list.iter().filter(|m| m.selector == item.selector).count();
        assert_eq!(item.count, sharing);
        assert!(item.count >= 1);
    }
    assert_eq!(tally.get(".a"), Some(3));
    assert_eq!(tally.get(".b"), Some(1));
    assert_eq!(tally.get(".c"), Some(1));
    assert_eq!(tally.get(".d"), None);
}

#[test]
fn tally_keeps_selectors_in_order_of_first_occurrence() {
    let list = vec![
        found("a.css", 1, ".z"),
        found("a.css", 2, ".a"),
        found("a.css", 3, ".z"),
        found("a.css", 4, ".m"),
        found("a.css", 5, ".a"),
    ];
    let tally = tally_matches(&list);
    assert_eq!(tally.as_entries(), &vec![entry(".z", 2), entry(".a", 2), entry(".m", 1)]);
}

#[test]
fn tally_tells_selectors_apart_exactly() {
    let list = vec![
        found("a.css", 1, ".a"),
        found("a.css", 2, " .a"),
        found("a.css", 3, ".A"),
        found("a.css", 4, ".a"),
        found("a.css", 5, ""),
    ];
    let tally = tally_matches(&list);
    assert_eq!(tally.len(), 4);
    assert_eq!(tally.get(".a"), Some(2));
    assert_eq!(tally.get(" .a"), Some(1));
    assert_eq!(tally.get(".A"), Some(1));
    assert_eq!(tally.get(""), Some(1));
}

#[test]
fn tally_does_not_depend_on_match_order() {
    let forward = vec![found("a.css", 1, ".a"), found("a.css", 2, ".b"), found("b.css", 1, ".a")];
    let mut backward = forward.clone();
    backward.reverse();
    let one = tally_matches(&forward);
    let other = tally_matches(&backward);
    assert_eq!(one.len(), other.len());
    for selector in [".a", ".b", ".c"] {
        assert_eq!(one.get(selector), other.get(selector));
    }
}

#[test]
fn tally_counts_sum_to_the_number_of_matches() {
    let list = vec![
        found("a.css", 1, ".a"),
        found("a.css", 2, ".b"),
        found("b.css", 1, ".a"),
        found("b.css", 2, ".a"),
    ];
    let tally = tally_matches(&list);
    let total: usize = tally.as_entries().iter().map(|e| e.count).sum();
    assert_eq!(total, list.len());
}
