//! The tally: how many matches share each normalized selector text.
//!
//! The tally keeps its selectors in the order in which they first occur in
//! the match list, so that a report built from it is deterministic. As a
//! mapping it depends on the matches only, not on their order.

use crate::selectors::{MatchView, SelectorMatchResult};
use vstd::prelude::*;

verus! {

// ---------------------------------------------------------------------------
// Model
// ---------------------------------------------------------------------------

/// One selector of the tally with its count.
pub type EntryView = (Seq<char>, nat);

/// The test for a match to carry the given selector text.
pub open spec fn has_selector(selector: Seq<char>) -> spec_fn(MatchView) -> bool {
    |m: MatchView| m.selector_text == selector
}

/// The number of matches that share the given selector text.
pub open spec fn count_of(matches: Seq<MatchView>, selector: Seq<char>) -> nat {
    matches.filter(has_selector(selector)).len()
}

/// The selector texts of the matches, each once, ordered by first occurrence.
pub open spec fn distinct_selectors(matches: Seq<MatchView>) -> Seq<Seq<char>>
    decreases matches.len(),
{
    if matches.len() == 0 {
        Seq::empty()
    } else {
        let earlier = distinct_selectors(matches.drop_last());
        if earlier.contains(matches.last().selector_text) {
            earlier
        } else {
            earlier.push(matches.last().selector_text)
        }
    }
}

/// The tally of a match list as an ordered list: every distinct selector, in
/// order of first occurrence, with the number of matches that share it.
pub open spec fn tally_entries(matches: Seq<MatchView>) -> Seq<EntryView> {
    let keys = distinct_selectors(matches);
    Seq::new(keys.len(), |i: int| (keys[i], count_of(matches, keys[i])))
}

/// The tally of a match list as a mapping from selector text to count. Its
/// keys are the selectors that occur at least once.
pub open spec fn tally_map(matches: Seq<MatchView>) -> Map<Seq<char>, nat> {
    Map::new(
        |selector: Seq<char>| count_of(matches, selector) > 0,
        |selector: Seq<char>| count_of(matches, selector),
    )
}

/// The selectors of a list of entries, in order.
pub open spec fn entry_keys(entries: Seq<EntryView>) -> Seq<Seq<char>> {
    Seq::new(entries.len(), |i: int| entries[i].0)
}

/// The mapping that a list of entries with distinct selectors stands for.
pub open spec fn entries_map(entries: Seq<EntryView>) -> Map<Seq<char>, nat> {
    Map::new(
        |selector: Seq<char>| entry_keys(entries).contains(selector),
        |selector: Seq<char>| entries[entry_keys(entries).index_of(selector)].1,
    )
}

// ---------------------------------------------------------------------------
// Data
// ---------------------------------------------------------------------------

/// One selector of a tally with the number of matches that share it.
#[derive(Debug, Clone, PartialEq, Eq)]
pub struct TallyEntry {
    pub selector: String,
    pub count: usize,
}

impl View for TallyEntry {
    type V = EntryView;

    open spec fn view(&self) -> EntryView {
        (self.selector@, self.count as nat)
    }
}

impl DeepView for TallyEntry {
    type V = EntryView;

    open spec fn deep_view(&self) -> EntryView {
        self@
    }
}

/// Counts of matches per selector. No selector occurs twice, and every count
/// is at least one.
#[derive(Debug)]
pub struct Tally {
    entries: Vec<TallyEntry>,
}

impl View for Tally {
    type V = Map<Seq<char>, nat>;

    open spec fn view(&self) -> Map<Seq<char>, nat> {
        entries_map(self.entries())
    }
}

impl Tally {
    /// The entries in order.
    pub closed spec fn entries(&self) -> Seq<EntryView> {
        self.entries.deep_view()
    }

    /// The invariant of the type, stated over the entries.
    pub open spec fn wf(&self) -> bool {
        &&& entry_keys(self.entries()).no_duplicates()
        &&& forall|i: int| 0 <= i < self.entries().len() ==> (#[trigger] self.entries()[i]).1 >= 1
    }

    #[verifier::type_invariant]
    spec fn inv(&self) -> bool {
        self.wf()
    }

    /// The tally of no matches.
    pub fn new() -> (tally: Tally)
        ensures
            tally.entries() == Seq::<EntryView>::empty(),
            tally@ == Map::<Seq<char>, nat>::empty(),
            tally.wf(),
    {
        let tally = Tally { entries: Vec::new() };
        assert(tally.entries() =~= Seq::<EntryView>::empty());
        assert(tally@ =~= Map::<Seq<char>, nat>::empty());
        tally
    }

    /// The number of distinct selectors.
    pub fn len(&self) -> (n: usize)
        ensures
            n == self.entries().len(),
            n == self@.dom().len(),
            self@.dom().finite(),
    {
        proof {
            use_type_invariant(self);
            lemma_entries_map_domain(self.entries());
        }
        self.entries.len()
    }

    /// The entries in order: each selector with its count.
    pub fn as_entries(&self) -> (entries: &Vec<TallyEntry>)
        ensures
            entries.deep_view() == self.entries(),
            self.wf(),
    {
        proof {
            use_type_invariant(self);
        }
        &self.entries
    }

    /// The count of a selector, if the tally holds it.
    pub fn get(&self, selector: &str) -> (count: Option<usize>)
        ensures
            match count {
                Some(n) => self@.contains_key(selector@) && self@[selector@] == n && n >= 1,
                None => !self@.contains_key(selector@),
            },
    {
        proof {
            use_type_invariant(self);
        }
        let key = selector.to_owned();
        match position_of(&self.entries, &key) {
            Some(at) => {
                proof {
                    let keys = entry_keys(self.entries());
                    assert(keys[at as int] == selector@);
                    assert(self.entries()[at as int] == self.entries[at as int]@);
                }
                Some(self.entries[at].count)
            },
            None => {
                proof {
                    let keys = entry_keys(self.entries());
                    if keys.contains(selector@) {
                        let i = choose|i: int| 0 <= i < keys.len() && keys[i] == selector@;
                        assert(self.entries[i].selector@ == selector@);
                    }
                }
                None
            },
        }
    }
}

// ---------------------------------------------------------------------------
// Facts about the model
// ---------------------------------------------------------------------------

/// Appending a match raises the count of its own selector by one and leaves
/// every other count as it was.
pub proof fn lemma_count_of_push(matches: Seq<MatchView>, m: MatchView, selector: Seq<char>)
    ensures
        count_of(matches.push(m), selector) == count_of(matches, selector) + (if m.selector_text
            == selector {
            1nat
        } else {
            0nat
        }),
{
    matches.lemma_filter_push(m, has_selector(selector));
}

/// A count never exceeds the number of matches.
pub proof fn lemma_count_of_bound(matches: Seq<MatchView>, selector: Seq<char>)
    ensures
        count_of(matches, selector) <= matches.len(),
{
    matches.lemma_filter_len(has_selector(selector));
}

/// The distinct selectors hold no selector twice, and they are exactly the
/// selector texts that occur among the matches.
pub proof fn lemma_distinct_selectors(matches: Seq<MatchView>)
    ensures
        distinct_selectors(matches).no_duplicates(),
        forall|selector: Seq<char>| #[trigger]
            distinct_selectors(matches).contains(selector) <==> count_of(matches, selector) > 0,
        forall|i: int|
            0 <= i < matches.len() ==> distinct_selectors(matches).contains(
                (#[trigger] matches[i]).selector_text,
            ),
    decreases matches.len(),
{
    if matches.len() == 0 {
        assert forall|selector: Seq<char>| count_of(matches, selector) == 0 by {
            lemma_count_of_bound(matches, selector);
        }
    } else {
        let earlier_matches = matches.drop_last();
        let last = matches.last();
        let earlier = distinct_selectors(earlier_matches);
        let keys = distinct_selectors(matches);
        lemma_distinct_selectors(earlier_matches);
        assert(earlier_matches.push(last) =~= matches);
        assert forall|selector: Seq<char>| #[trigger]
            keys.contains(selector) <==> count_of(matches, selector) > 0 by {
            lemma_count_of_push(earlier_matches, last, selector);
            assert(earlier.contains(selector) <==> count_of(earlier_matches, selector) > 0);
            if earlier.contains(last.selector_text) {
                assert(keys == earlier);
            } else {
                assert(keys == earlier.push(last.selector_text));
                if keys.contains(selector) {
                    let i = choose|i: int| 0 <= i < keys.len() && keys[i] == selector;
                    if i < earlier.len() {
                        assert(earlier[i] == selector);
                    }
                }
                if count_of(matches, selector) > 0 {
                    if selector == last.selector_text {
                        assert(keys[earlier.len() as int] == selector);
                    } else {
                        assert(earlier.contains(selector));
                        let i = choose|i: int| 0 <= i < earlier.len() && earlier[i] == selector;
                        assert(keys[i] == selector);
                    }
                }
            }
        }
        assert forall|i: int| 0 <= i < matches.len() implies keys.contains(
            (#[trigger] matches[i]).selector_text,
        ) by {
            lemma_count_of_push(earlier_matches, last, matches[i].selector_text);
            if i < earlier_matches.len() {
                assert(earlier_matches[i] == matches[i]);
            }
        }
    }
}

/// The tally entries of a match list have distinct selectors and counts of
/// at least one, and as a mapping they are the tally map.
pub proof fn lemma_tally_entries(matches: Seq<MatchView>)
    ensures
        tally_entries(matches).len() == distinct_selectors(matches).len(),
        entry_keys(tally_entries(matches)) == distinct_selectors(matches),
        entry_keys(tally_entries(matches)).no_duplicates(),
        forall|i: int|
            0 <= i < tally_entries(matches).len() ==> (#[trigger] tally_entries(matches)[i]).1
                >= 1,
        entries_map(tally_entries(matches)) == tally_map(matches),
{
    let entries = tally_entries(matches);
    let keys = distinct_selectors(matches);
    lemma_distinct_selectors(matches);
    assert(entry_keys(entries) =~= keys);
    assert forall|i: int| 0 <= i < entries.len() implies (#[trigger] entries[i]).1 >= 1 by {
        assert(keys.contains(keys[i]));
    }
    assert forall|selector: Seq<char>| keys.contains(selector) implies entries[keys.index_of(
        selector,
    )].1 == count_of(matches, selector) by {
        let i = keys.index_of(selector);
        assert(keys[i] == selector);
    }
    assert(entries_map(entries) =~= tally_map(matches));
}

/// One more match at the end of the list: when the tally holds its selector
/// already, the count of that entry goes up by one; when it does not, the
/// selector is appended with a count of one. Nothing else changes.
pub proof fn lemma_tally_entries_push(matches: Seq<MatchView>, m: MatchView)
    ensures
        forall|at: int|
            0 <= at < tally_entries(matches).len() && (#[trigger] tally_entries(matches)[at]).0
                == m.selector_text ==> tally_entries(matches.push(m)) == tally_entries(
                matches,
            ).update(at, (m.selector_text, tally_entries(matches)[at].1 + 1)),
        !distinct_selectors(matches).contains(m.selector_text) ==> tally_entries(matches.push(m))
            == tally_entries(matches).push((m.selector_text, 1nat)),
{
    let keys = distinct_selectors(matches);
    let before = tally_entries(matches);
    let longer = matches.push(m);
    let after = tally_entries(longer);
    lemma_distinct_selectors(matches);
    assert(longer.drop_last() =~= matches);
    assert forall|selector: Seq<char>|
        count_of(longer, selector) == count_of(matches, selector) + (if m.selector_text
            == selector {
            1nat
        } else {
            0nat
        }) by {
        lemma_count_of_push(matches, m, selector);
    }
    assert forall|at: int| 0 <= at < before.len() && (#[trigger] before[at]).0
        == m.selector_text implies after == before.update(
        at,
        (m.selector_text, before[at].1 + 1),
    ) by {
        assert(keys[at] == m.selector_text);
        assert(distinct_selectors(longer) == keys);
        assert forall|k: int| 0 <= k < keys.len() && k != at implies keys[k]
            != m.selector_text by {
            assert(keys[k] != keys[at]);
        }
        assert(after =~= before.update(at, (m.selector_text, before[at].1 + 1)));
    }
    if !keys.contains(m.selector_text) {
        assert(distinct_selectors(longer) == keys.push(m.selector_text));
        assert forall|k: int| 0 <= k < keys.len() implies keys[k] != m.selector_text by {
            assert(keys.contains(keys[k]));
        }
        assert(after =~= before.push((m.selector_text, 1nat)));
    }
}

/// The mapping of entries with distinct selectors has as many keys as there
/// are entries.
pub proof fn lemma_entries_map_domain(entries: Seq<EntryView>)
    requires
        entry_keys(entries).no_duplicates(),
    ensures
        entries_map(entries).dom() == entry_keys(entries).to_set(),
        entries_map(entries).dom().finite(),
        entries_map(entries).dom().len() == entries.len(),
{
    let keys = entry_keys(entries);
    assert(entries_map(entries).dom() =~= keys.to_set());
    keys.unique_seq_to_set();
    vstd::seq_lib::seq_to_set_is_finite(keys);
}

/// The count over two lists one after the other is the sum of the counts.
pub proof fn lemma_count_of_concat(a: Seq<MatchView>, b: Seq<MatchView>, selector: Seq<char>)
    ensures
        count_of(a + b, selector) == count_of(a, selector) + count_of(b, selector),
{
    Seq::filter_distributes_over_add(a, b, has_selector(selector));
}

/// A count depends on which matches there are and how often, not on their
/// order.
pub proof fn lemma_count_ignores_order(
    a: Seq<MatchView>,
    b: Seq<MatchView>,
    selector: Seq<char>,
)
    requires
        a.to_multiset() == b.to_multiset(),
    ensures
        count_of(a, selector) == count_of(b, selector),
    decreases a.len(),
{
    broadcast use vstd::seq_lib::group_to_multiset_ensures;

    if a.len() == 0 {
        assert(a.to_multiset().len() == a.len());
        assert(b.to_multiset().len() == b.len());
        assert(a =~= b);
    } else {
        let m = a.last();
        let a_rest = a.drop_last();
        assert(a_rest.push(m) =~= a);
        assert(b.to_multiset().count(m) > 0);
        assert(b.contains(m));
        let at = choose|at: int| 0 <= at < b.len() && b[at] == m;
        let b_rest = b.remove(at);
        assert(a_rest.to_multiset() =~= a.to_multiset().remove(m));
        assert(a_rest.to_multiset() == b_rest.to_multiset());
        lemma_count_ignores_order(a_rest, b_rest, selector);
        lemma_count_of_push(a_rest, m, selector);
        let head = b.take(at);
        let tail = b.skip(at + 1);
        assert(b =~= head.push(m) + tail);
        assert(b_rest =~= head + tail);
        lemma_count_of_concat(head.push(m), tail, selector);
        lemma_count_of_concat(head, tail, selector);
        lemma_count_of_push(head, m, selector);
    }
}

/// The tally as a mapping depends on which matches there are and how often,
/// not on the order in which they were found.
pub proof fn lemma_tally_ignores_order(a: Seq<MatchView>, b: Seq<MatchView>)
    requires
        a.to_multiset() == b.to_multiset(),
    ensures
        tally_map(a) == tally_map(b),
{
    assert forall|selector: Seq<char>| count_of(a, selector) == count_of(b, selector) by {
        lemma_count_ignores_order(a, b, selector);
    }
    assert(tally_map(a) =~= tally_map(b));
}

// ---------------------------------------------------------------------------
// Aggregator
// ---------------------------------------------------------------------------

/// Position of the entry with the given selector, if there is one.
fn position_of(entries: &Vec<TallyEntry>, selector: &String) -> (found: Option<usize>)
    ensures
        match found {
            Some(at) => at < entries.len() && entries[at as int].selector@ == selector@,
            None => forall|i: int| 0 <= i < entries.len() ==> entries[i].selector@ != selector@,
        },
{
    let mut at: usize = 0;
    while at < entries.len()
        invariant
            at <= entries.len(),
            forall|i: int| 0 <= i < at ==> entries[i].selector@ != selector@,
        decreases entries.len() - at,
    {
        if entries[at].selector == *selector {
            return Some(at);
        }
        at += 1;
    }
    None
}

/// Counts the matches per normalized selector text.
///
/// The whole match list has to be there before tallying; the counts do not
/// depend on the order of the matches.
pub fn tally_matches(match_list: &Vec<SelectorMatchResult>) -> (tally: Tally)
    ensures
        tally.entries() == tally_entries(match_list.deep_view()),
        tally@ == tally_map(match_list.deep_view()),
        tally.wf(),
        forall|selector: Seq<char>| #[trigger]
            tally@.contains_key(selector) ==> tally@[selector] == count_of(
                match_list.deep_view(),
                selector,
            ),
        forall|i: int|
            0 <= i < match_list.len() ==> tally@.contains_key((#[trigger] match_list[i]).selector@),
{
    let ghost matches = match_list.deep_view();
    let mut entries: Vec<TallyEntry> = Vec::new();
    let mut i: usize = 0;
    assert(entries.deep_view() =~= tally_entries(matches.take(0)));
    while i < match_list.len()
        invariant
            i <= match_list.len(),
            matches == match_list.deep_view(),
            entries.deep_view() == tally_entries(matches.take(i as int)),
        decreases match_list.len() - i,
    {
        let selector = &match_list[i].selector;
        let ghost seen = matches.take(i as int);
        let ghost before = entries.deep_view();
        proof {
            assert(matches.take(i + 1) =~= seen.push(matches[i as int]));
            assert(matches[i as int].selector_text == selector@);
            lemma_tally_entries_push(seen, matches[i as int]);
            lemma_tally_entries(seen);
        }
        match position_of(&entries, selector) {
            Some(at) => {
                proof {
                    lemma_count_of_bound(seen, selector@);
                    assert(before[at as int] == entries[at as int]@);
                }
                entries[at].count += 1;
                assert(entries.deep_view() =~= before.update(
                    at as int,
                    (selector@, before[at as int].1 + 1),
                ));
            },
            None => {
                proof {
                    let keys = distinct_selectors(seen);
                    if keys.contains(selector@) {
                        let k = choose|k: int| 0 <= k < keys.len() && keys[k] == selector@;
                        assert(before[k] == entries[k]@);
                    }
                }
                entries.push(TallyEntry { selector: selector.clone(), count: 1 });
                assert(entries.deep_view() =~= before.push((selector@, 1nat)));
            },
        }
        i += 1;
    }
    proof {
        assert(matches.take(i as int) =~= matches);
        lemma_tally_entries(matches);
    }
    let tally = Tally { entries };
    proof {
        lemma_distinct_selectors(matches);
        assert forall|k: int| 0 <= k < match_list.len() implies tally@.contains_key(
            (#[trigger] match_list[k]).selector@,
        ) by {
            assert(matches[k].selector_text == match_list[k].selector@);
        }
    }
    tally
}

} // verus!
