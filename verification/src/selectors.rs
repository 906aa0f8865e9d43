//! Selector search: from the lines of the scanned files to the list of
//! matches.
//!
//! A file is handed over as its path together with its text, or with the
//! reason why it could not be read. A line is a candidate when it holds an
//! opening brace; a candidate matches when it holds the query as a literal
//! substring. Brace detection looks at single lines only: a selector that is
//! split across lines, or a brace inside a comment or a string, is not told
//! apart.

use crate::report::{is_rendering_of, log_results, records_of, report_of, PersistenceError};
use crate::tally::{lemma_tally_ignores_order, tally_entries, tally_map, tally_matches, Tally};
use crate::text::{
    contains_chars, contains_substring, has_brace, line_has_brace, lines_of, normalize_chars,
    normalize_selector, split_lines, to_chars,
};
use vstd::prelude::*;
use vstd::string::StringExecFns;

verus! {

// ---------------------------------------------------------------------------
// Data
// ---------------------------------------------------------------------------

/// One matched line: where it was found and its normalized selector text.
#[derive(Debug, Clone, PartialEq, Eq)]
pub struct SelectorMatchResult {
    pub file_name: String,
    pub line_num: usize,
    pub selector: String,
}

/// Mathematical value of a [`SelectorMatchResult`].
pub ghost struct MatchView {
    pub file_path: Seq<char>,
    pub line_number: nat,
    pub selector_text: Seq<char>,
}

impl View for SelectorMatchResult {
    type V = MatchView;

    open spec fn view(&self) -> MatchView {
        MatchView {
            file_path: self.file_name@,
            line_number: self.line_num as nat,
            selector_text: self.selector@,
        }
    }
}

impl DeepView for SelectorMatchResult {
    type V = MatchView;

    open spec fn deep_view(&self) -> MatchView {
        self@
    }
}

impl SelectorMatchResult {
    /// A match as the search produces it: line numbers count from one.
    pub open spec fn wf(&self) -> bool {
        self.line_num >= 1
    }

    pub fn new(file: String, linum: usize, selector: String) -> (result: Self)
        ensures
            result.file_name == file,
            result.line_num == linum,
            result.selector == selector,
            result@ == (MatchView {
                file_path: file@,
                line_number: linum as nat,
                selector_text: selector@,
            }),
    {
        Self { file_name: file, line_num: linum, selector }
    }
}

/// A regular file found under the target: its path, and either its text or
/// the reason why it could not be opened or decoded.
#[derive(Debug)]
pub struct SourceFile {
    pub path: String,
    pub content: Result<String, String>,
}

/// Mathematical value of a [`SourceFile`].
pub ghost struct SourceFileView {
    pub path: Seq<char>,
    pub content: Result<Seq<char>, Seq<char>>,
}

impl View for SourceFile {
    type V = SourceFileView;

    open spec fn view(&self) -> SourceFileView {
        SourceFileView {
            path: self.path@,
            content: match self.content {
                Ok(text) => Ok(text@),
                Err(reason) => Err(reason@),
            },
        }
    }
}

impl DeepView for SourceFile {
    type V = SourceFileView;

    open spec fn deep_view(&self) -> SourceFileView {
        self@
    }
}

// ---------------------------------------------------------------------------
// Model of the line extractor
// ---------------------------------------------------------------------------

/// A line paired with its 1-based number.
pub type NumberedLine = (nat, Seq<char>);

/// Every line of a file with its 1-based position.
pub open spec fn numbered_lines(lines: Seq<Seq<char>>) -> Seq<NumberedLine> {
    Seq::new(lines.len(), |i: int| ((i + 1) as nat, lines[i]))
}

/// The candidate test: the line holds an opening brace.
pub open spec fn is_candidate() -> spec_fn(NumberedLine) -> bool {
    |line: NumberedLine| has_brace(line.1)
}

/// The candidates of a file: its numbered lines that hold an opening brace,
/// in file order.
pub open spec fn candidate_lines(lines: Seq<Seq<char>>) -> Seq<NumberedLine> {
    numbered_lines(lines).filter(is_candidate())
}

/// Mathematical value of a list of extracted candidates.
pub open spec fn candidates_view(candidates: Seq<(usize, String)>) -> Seq<NumberedLine> {
    Seq::new(candidates.len(), |k: int| (candidates[k].0 as nat, candidates[k].1@))
}

// ---------------------------------------------------------------------------
// Model of the matcher
// ---------------------------------------------------------------------------

/// The match that a candidate gives when it holds the query, and `None` when
/// it does not.
pub open spec fn line_match(query: Seq<char>, path: Seq<char>, line: NumberedLine) -> Option<
    MatchView,
> {
    if contains_substring(line.1, query) {
        Some(
            MatchView {
                file_path: path,
                line_number: line.0,
                selector_text: normalize_selector(line.1),
            },
        )
    } else {
        None
    }
}

/// [`line_match`] for a fixed query and path.
pub open spec fn matcher(query: Seq<char>, path: Seq<char>) -> spec_fn(NumberedLine) -> Option<
    MatchView,
> {
    |line: NumberedLine| line_match(query, path, line)
}

/// The matches among a list of candidates, in the order of the candidates.
pub open spec fn candidate_matches(
    query: Seq<char>,
    path: Seq<char>,
    candidates: Seq<NumberedLine>,
) -> Seq<MatchView> {
    candidates.filter_map(matcher(query, path))
}

/// The matches of one file. A file that could not be read has none.
pub open spec fn file_matches(query: Seq<char>, file: SourceFileView) -> Seq<MatchView> {
    match file.content {
        Ok(text) => candidate_matches(query, file.path, candidate_lines(lines_of(text))),
        Err(_) => Seq::empty(),
    }
}

/// [`file_matches`] for a fixed query.
pub open spec fn file_matcher(query: Seq<char>) -> spec_fn(SourceFileView) -> Seq<MatchView> {
    |file: SourceFileView| file_matches(query, file)
}

/// The matches of a whole scan: those of each file, in the order in which the
/// files were handed over.
pub open spec fn search_matches(query: Seq<char>, files: Seq<SourceFileView>) -> Seq<MatchView> {
    files.flat_map(file_matcher(query))
}

// ---------------------------------------------------------------------------
// Line extractor
// ---------------------------------------------------------------------------

/// Extracts the candidate selector lines of the text of one file: each line
/// that holds an opening brace, with its 1-based line number, in file order.
pub fn parse_file_selectors(text: &str) -> (selectors: Vec<(usize, String)>)
    ensures
        candidates_view(selectors@) == candidate_lines(lines_of(text@)),
        forall|k: int|
            0 <= k < selectors.len() ==> {
                &&& 1 <= (#[trigger] selectors[k]).0 <= lines_of(text@).len()
                &&& selectors[k].1@ == lines_of(text@)[selectors[k].0 - 1]
                &&& has_brace(selectors[k].1@)
            },
        forall|k: int, l: int|
            0 <= k < l < selectors.len() ==> (#[trigger] selectors[k]).0 < (
            #[trigger] selectors[l]).0,
{
    let lines = split_lines(text);
    let mut selectors: Vec<(usize, String)> = Vec::new();
    let ghost all = numbered_lines(lines.deep_view());
    let mut num: usize = 0;
    while num < lines.len()
        invariant
            num <= lines.len(),
            lines.deep_view() == lines_of(text@),
            all == numbered_lines(lines.deep_view()),
            candidates_view(selectors@) == all.take(num as int).filter(is_candidate()),
            forall|k: int|
                0 <= k < selectors.len() ==> {
                    &&& 1 <= (#[trigger] selectors[k]).0 <= num
                    &&& selectors[k].1@ == lines[selectors[k].0 - 1]@
                    &&& has_brace(selectors[k].1@)
                },
            forall|k: int, l: int|
                0 <= k < l < selectors.len() ==> (#[trigger] selectors[k]).0 < (
                #[trigger] selectors[l]).0,
        decreases lines.len() - num,
    {
        let line = &lines[num];
        let ghost before = selectors@;
        proof {
            assert(all.take(num + 1) =~= all.take(num as int).push(all[num as int]));
            all.take(num as int).lemma_filter_push(all[num as int], is_candidate());
            assert(all[num as int] == ((num + 1) as nat, line@));
        }
        if line_has_brace(line.as_str()) {
            let linum = num + 1;
            selectors.push((linum, line.clone()));
            assert(candidates_view(selectors@) =~= candidates_view(before).push(
                all[num as int],
            ));
        }
        num += 1;
    }
    proof {
        assert(all.take(num as int) =~= all);
        assert forall|k: int| 0 <= k < selectors.len() implies (#[trigger] selectors[k]).1@
            == lines_of(text@)[selectors[k].0 - 1] by {
            assert(lines.deep_view()[selectors[k].0 - 1] == lines[selectors[k].0 - 1]@);
        }
    }
    selectors
}

// ---------------------------------------------------------------------------
// Matcher
// ---------------------------------------------------------------------------

/// The matcher on a decoded query: gives the match of a candidate line when
/// the line holds the query as a literal substring.
pub fn match_candidate(query: &Vec<char>, path: &String, linum: usize, raw_text: &String) -> (found:
    Option<SelectorMatchResult>)
    ensures
        match found {
            Some(result) => line_match(query@, path@, (linum as nat, raw_text@)) == Some(result@),
            None => line_match(query@, path@, (linum as nat, raw_text@)).is_none(),
        },
{
    let raw = to_chars(raw_text.as_str());
    if contains_chars(&raw, query) {
        let selector = normalize_chars(&raw);
        Some(SelectorMatchResult::new(path.clone(), linum, selector))
    } else {
        None
    }
}

/// The matcher: gives the match of a candidate line when the line holds the
/// query as a case-sensitive literal substring, and nothing when it does not.
pub fn match_line(query: &str, path: &str, linum: usize, raw_text: &str) -> (found: Option<
    SelectorMatchResult,
>)
    ensures
        match found {
            Some(result) => line_match(query@, path@, (linum as nat, raw_text@)) == Some(result@),
            None => line_match(query@, path@, (linum as nat, raw_text@)).is_none(),
        },
{
    let pattern = to_chars(query);
    let owned_path = path.to_owned();
    let owned_text = raw_text.to_owned();
    match_candidate(&pattern, &owned_path, linum, &owned_text)
}

/// Appends the matches of the text of one file to `match_list`, in line
/// order.
pub fn collect_file_matches(
    query: &Vec<char>,
    path: &String,
    text: &str,
    match_list: &mut Vec<SelectorMatchResult>,
)
    ensures
        final(match_list).deep_view() == old(match_list).deep_view() + candidate_matches(
            query@,
            path@,
            candidate_lines(lines_of(text@)),
        ),
{
    let candidates = parse_file_selectors(text);
    let ghost start = match_list.deep_view();
    let ghost all = candidates_view(candidates@);
    let ghost select = matcher(query@, path@);
    let mut k: usize = 0;
    assert(match_list.deep_view() =~= start + all.take(0).filter_map(select));
    while k < candidates.len()
        invariant
            k <= candidates.len(),
            all == candidates_view(candidates@),
            select == matcher(query@, path@),
            match_list.deep_view() == start + all.take(k as int).filter_map(select),
        decreases candidates.len() - k,
    {
        let candidate = &candidates[k];
        let ghost before = match_list.deep_view();
        proof {
            all.lemma_filter_map_take_succ(select, k as int);
            assert(all[k as int] == (candidate.0 as nat, candidate.1@));
        }
        match match_candidate(query, path, candidate.0, &candidate.1) {
            Some(result) => {
                match_list.push(result);
                assert(match_list.deep_view() =~= before.push(result@));
                assert(match_list.deep_view() =~= start + all.take(k + 1).filter_map(select));
            },
            None => {
                assert(match_list.deep_view() =~= start + all.take(k + 1).filter_map(select));
            },
        }
        k += 1;
    }
    assert(all.take(k as int) =~= all);
}

// ---------------------------------------------------------------------------
// The search
// ---------------------------------------------------------------------------

/// The diagnostic for a file that could not be read.
pub open spec fn diagnostic_text(reason: Seq<char>) -> Seq<char> {
    "Selector parsing error: "@ + reason
}

/// The diagnostics that one file gives: one when it could not be read, none
/// when it could.
pub open spec fn file_diagnostics(file: SourceFileView) -> Seq<Seq<char>> {
    match file.content {
        Ok(_) => Seq::empty(),
        Err(reason) => seq![diagnostic_text(reason)],
    }
}

/// [`file_diagnostics`] as a function value.
pub open spec fn file_reporter() -> spec_fn(SourceFileView) -> Seq<Seq<char>> {
    |file: SourceFileView| file_diagnostics(file)
}

/// The diagnostics of a scan: one for each file that could not be read, in
/// the order of the files.
pub open spec fn diagnostics_of(files: Seq<SourceFileView>) -> Seq<Seq<char>> {
    files.flat_map(file_reporter())
}

/// What the report says about persisting: without logging nothing is
/// rendered; with logging the document renders the rows that the matches and
/// their own tally give.
pub open spec fn persisted_for(
    persisted: Option<Result<Vec<u8>, PersistenceError>>,
    logging: bool,
    matches: Seq<MatchView>,
) -> bool {
    match persisted {
        Some(document) => logging && is_rendering_of(
            document,
            records_of(report_of(matches, tally_entries(matches))),
        ),
        None => !logging,
    }
}

/// What a search found and what it has to say.
#[derive(Debug)]
pub struct SearchReport {
    /// Every match, file by file and in line order within a file.
    pub match_list: Vec<SelectorMatchResult>,
    /// The matches counted per selector.
    pub tally: Tally,
    /// One message for each file that was skipped because it could not be
    /// read.
    pub diagnostics: Vec<String>,
    /// The persisted report as CSV bytes, or why it could not be rendered;
    /// `None` when logging was not asked for.
    pub persisted: Option<Result<Vec<u8>, PersistenceError>>,
}

/// A search in progress: the query, and what the files scanned so far have
/// given. Files are scanned one at a time, so that only the matches stay in
/// memory.
#[derive(Debug)]
pub struct Search {
    query: Vec<char>,
    match_list: Vec<SelectorMatchResult>,
    diagnostics: Vec<String>,
}

impl Search {
    /// The query of this search.
    pub closed spec fn query(&self) -> Seq<char> {
        self.query@
    }

    /// The matches found so far.
    pub closed spec fn matches(&self) -> Seq<MatchView> {
        self.match_list.deep_view()
    }

    /// The diagnostics given so far.
    pub closed spec fn diagnostics(&self) -> Seq<Seq<char>> {
        self.diagnostics.deep_view()
    }

    /// Starts a search for `query` with no file scanned yet.
    pub fn new(query: &str) -> (search: Search)
        ensures
            search.query() == query@,
            search.matches() == Seq::<MatchView>::empty(),
            search.diagnostics() == Seq::<Seq<char>>::empty(),
    {
        let search = Search {
            query: to_chars(query),
            match_list: Vec::new(),
            diagnostics: Vec::new(),
        };
        assert(search.matches() =~= Seq::<MatchView>::empty());
        assert(search.diagnostics() =~= Seq::<Seq<char>>::empty());
        search
    }

    /// Scans one file: its matches are appended in line order; a file that
    /// could not be read is skipped and gives a diagnostic instead.
    pub fn scan_file(&mut self, file: &SourceFile)
        ensures
            final(self).query() == old(self).query(),
            final(self).matches() == old(self).matches() + file_matches(old(self).query(), file@),
            final(self).diagnostics() == old(self).diagnostics() + file_diagnostics(file@),
    {
        let ghost found_before = self.match_list.deep_view();
        let ghost said_before = self.diagnostics.deep_view();
        match &file.content {
            Ok(text) => {
                collect_file_matches(&self.query, &file.path, text.as_str(), &mut self.match_list);
                assert(self.diagnostics.deep_view() =~= said_before + Seq::<Seq<char>>::empty());
            },
            Err(reason) => {
                let mut message = "Selector parsing error: ".to_owned();
                message.append(reason.as_str());
                self.diagnostics.push(message);
                assert(self.diagnostics.deep_view() =~= said_before + seq![
                    diagnostic_text(reason@),
                ]);
                assert(self.match_list.deep_view() =~= found_before + Seq::<MatchView>::empty());
            },
        }
    }

    /// Ends the search: tallies the matches and, with `logging`, renders the
    /// persisted report.
    pub fn finish(self, logging: bool) -> (report: SearchReport)
        ensures
            report.match_list.deep_view() == self.matches(),
            report.diagnostics.deep_view() == self.diagnostics(),
            report.tally.entries() == tally_entries(self.matches()),
            report.tally@ == tally_map(self.matches()),
            persisted_for(report.persisted, logging, self.matches()),
    {
        let Search { query: _, match_list, diagnostics } = self;
        let tally = tally_matches(&match_list);
        let persisted = if logging {
            Some(log_results(&match_list, &tally))
        } else {
            None
        };
        SearchReport { match_list, tally, diagnostics, persisted }
    }
}

/// Searches the given files for selector-like lines that hold `query`.
///
/// Files that could not be read are skipped with a diagnostic; they never
/// fail the search. No file at all gives an empty report. With `logging` the
/// report also carries the bytes of the CSV document.
pub fn search_target(query: &str, files: &Vec<SourceFile>, logging: bool) -> (report: SearchReport)
    ensures
        report.match_list.deep_view() == search_matches(query@, files.deep_view()),
        report.match_list.len() == qualifying_lines(query@, files.deep_view()),
        forall|k: int| 0 <= k < report.match_list.len() ==> (#[trigger] report.match_list[k]).wf(),
        report.tally.entries() == tally_entries(report.match_list.deep_view()),
        report.tally@ == tally_map(report.match_list.deep_view()),
        report.diagnostics.deep_view() == diagnostics_of(files.deep_view()),
        persisted_for(report.persisted, logging, report.match_list.deep_view()),
{
    let ghost all = files.deep_view();
    let mut search = Search::new(query);
    let mut i: usize = 0;
    assert(search.matches() =~= all.take(0).flat_map(file_matcher(query@)));
    assert(search.diagnostics() =~= all.take(0).flat_map(file_reporter()));
    while i < files.len()
        invariant
            i <= files.len(),
            all == files.deep_view(),
            search.query() == query@,
            search.matches() == search_matches(query@, all.take(i as int)),
            search.diagnostics() == diagnostics_of(all.take(i as int)),
        decreases files.len() - i,
    {
        proof {
            all.lemma_flat_map_take_append(file_matcher(query@), i as int);
            all.lemma_flat_map_take_append(file_reporter(), i as int);
            assert(all[i as int] == files[i as int]@);
        }
        search.scan_file(&files[i]);
        i += 1;
    }
    proof {
        assert(all.take(i as int) =~= all);
        lemma_match_count(query@, all);
        lemma_search_line_numbers(query@, all);
    }
    let report = search.finish(logging);
    proof {
        assert forall|k: int| 0 <= k < report.match_list.len() implies (
        #[trigger] report.match_list[k]).wf() by {
            assert(report.match_list.deep_view()[k] == report.match_list[k]@);
        }
    }
    report
}

/// The exit status of a run: `1` when logging was asked for and the report
/// could not be persisted, `0` in every other case, also when nothing was
/// found.
pub fn exit_code(logging: bool, persisted: bool) -> (code: i32)
    ensures
        code == if logging && !persisted {
            1i32
        } else {
            0i32
        },
{
    if logging && !persisted {
        1
    } else {
        0
    }
}

// ---------------------------------------------------------------------------
// Facts about the search
// ---------------------------------------------------------------------------

/// The test for a line to give a match: it holds an opening brace and the
/// query.
pub open spec fn qualifies(query: Seq<char>) -> spec_fn(Seq<char>) -> bool {
    |line: Seq<char>| has_brace(line) && contains_substring(line, query)
}

/// The number of lines of a file that hold both an opening brace and the
/// query; none for a file that could not be read.
pub open spec fn qualifying_lines_in(query: Seq<char>, file: SourceFileView) -> nat {
    match file.content {
        Ok(text) => lines_of(text).filter(qualifies(query)).len(),
        Err(_) => 0,
    }
}

/// The number of lines across all files that hold both an opening brace and
/// the query.
pub open spec fn qualifying_lines(query: Seq<char>, files: Seq<SourceFileView>) -> nat
    decreases files.len(),
{
    if files.len() == 0 {
        0
    } else {
        qualifying_lines(query, files.drop_last()) + qualifying_lines_in(query, files.last())
    }
}

/// One more line at the end of a file adds its match, numbered by its
/// position, when it qualifies, and nothing when it does not.
pub proof fn lemma_file_matches_push(
    query: Seq<char>,
    path: Seq<char>,
    lines: Seq<Seq<char>>,
    line: Seq<char>,
)
    ensures
        candidate_matches(query, path, candidate_lines(lines.push(line))) == candidate_matches(
            query,
            path,
            candidate_lines(lines),
        ) + (if qualifies(query)(line) {
            seq![
                MatchView {
                    file_path: path,
                    line_number: (lines.len() + 1) as nat,
                    selector_text: normalize_selector(line),
                },
            ]
        } else {
            Seq::<MatchView>::empty()
        }),
{
    let numbered = numbered_lines(lines);
    let last: NumberedLine = ((lines.len() + 1) as nat, line);
    let select = matcher(query, path);
    assert(numbered_lines(lines.push(line)) =~= numbered.push(last));
    numbered.lemma_filter_push(last, is_candidate());
    let candidates = candidate_lines(lines);
    if has_brace(line) {
        assert(candidates.push(last).drop_last() =~= candidates);
        assert(candidates.push(last).filter_map(select) =~= candidates.filter_map(select) + (
        match select(last) {
            Some(found) => seq![found],
            None => Seq::<MatchView>::empty(),
        }));
    } else {
        assert(candidates.filter_map(select) + Seq::<MatchView>::empty()
            =~= candidates.filter_map(select));
    }
}

/// Lines give exactly one match for each of them that holds both an opening
/// brace and the query.
pub proof fn lemma_line_match_count(query: Seq<char>, path: Seq<char>, lines: Seq<Seq<char>>)
    ensures
        candidate_matches(query, path, candidate_lines(lines)).len() == lines.filter(
            qualifies(query),
        ).len(),
    decreases lines.len(),
{
    if lines.len() == 0 {
        assert(numbered_lines(lines) =~= Seq::<NumberedLine>::empty());
        numbered_lines(lines).lemma_filter_len(is_candidate());
        lines.lemma_filter_len(qualifies(query));
    } else {
        let shorter = lines.drop_last();
        lemma_line_match_count(query, path, shorter);
        assert(shorter.push(lines.last()) =~= lines);
        lemma_file_matches_push(query, path, shorter, lines.last());
        shorter.lemma_filter_push(lines.last(), qualifies(query));
    }
}

/// A file gives exactly one match for each of its lines that hold both an
/// opening brace and the query.
pub proof fn lemma_file_match_count(query: Seq<char>, file: SourceFileView)
    ensures
        file_matches(query, file).len() == qualifying_lines_in(query, file),
{
    match file.content {
        Ok(text) => {
            lemma_line_match_count(query, file.path, lines_of(text));
        },
        Err(_) => {},
    }
}

/// The matches of a scan are as many as there are lines, across all files,
/// that hold both an opening brace and the query.
pub proof fn lemma_match_count(query: Seq<char>, files: Seq<SourceFileView>)
    ensures
        search_matches(query, files).len() == qualifying_lines(query, files),
    decreases files.len(),
{
    if files.len() == 0 {
        assert(search_matches(query, files) =~= Seq::<MatchView>::empty());
    } else {
        let earlier = files.drop_last();
        lemma_match_count(query, earlier);
        lemma_file_match_count(query, files.last());
        assert(earlier.push(files.last()) =~= files);
        earlier.lemma_flat_map_push(file_matcher(query), files.last());
    }
}

/// The line number of every match is the 1-based position, within its file,
/// of the line that it was made from; the matches of a file come in line
/// order, and every line that holds both an opening brace and the query has
/// its match.
pub proof fn lemma_line_numbers(query: Seq<char>, path: Seq<char>, lines: Seq<Seq<char>>)
    ensures
        ({
            let found = candidate_matches(query, path, candidate_lines(lines));
            &&& forall|k: int|
                0 <= k < found.len() ==> {
                    &&& 1 <= (#[trigger] found[k]).line_number <= lines.len()
                    &&& qualifies(query)(lines[found[k].line_number - 1])
                    &&& found[k].selector_text == normalize_selector(
                        lines[found[k].line_number - 1],
                    )
                    &&& found[k].file_path == path
                }
            &&& forall|k: int, l: int|
                0 <= k < l < found.len() ==> (#[trigger] found[k]).line_number < (
                #[trigger] found[l]).line_number
            &&& forall|i: int|
                0 <= i < lines.len() && qualifies(query)(#[trigger] lines[i]) ==> exists|k: int|
                    0 <= k < found.len() && (#[trigger] found[k]).line_number == i + 1
        }),
    decreases lines.len(),
{
    let found = candidate_matches(query, path, candidate_lines(lines));
    if lines.len() == 0 {
        assert(numbered_lines(lines) =~= Seq::<NumberedLine>::empty());
        numbered_lines(lines).lemma_filter_len(is_candidate());
    } else {
        let shorter = lines.drop_last();
        let line = lines.last();
        let earlier = candidate_matches(query, path, candidate_lines(shorter));
        lemma_line_numbers(query, path, shorter);
        assert(shorter.push(line) =~= lines);
        lemma_file_matches_push(query, path, shorter, line);
        assert forall|k: int| 0 <= k < found.len() implies {
            &&& 1 <= (#[trigger] found[k]).line_number <= lines.len()
            &&& qualifies(query)(lines[found[k].line_number - 1])
            &&& found[k].selector_text == normalize_selector(lines[found[k].line_number - 1])
            &&& found[k].file_path == path
        } by {
            if k < earlier.len() {
                assert(found[k] == earlier[k]);
                assert(lines[earlier[k].line_number - 1] == shorter[earlier[k].line_number - 1]);
            }
        }
        assert forall|k: int, l: int| 0 <= k < l < found.len() implies (
        #[trigger] found[k]).line_number < (#[trigger] found[l]).line_number by {
            assert(found[k] == earlier[k]);
            if l < earlier.len() {
                assert(found[l] == earlier[l]);
            }
        }
        assert forall|i: int|
            0 <= i < lines.len() && qualifies(query)(#[trigger] lines[i]) implies exists|k: int|
            0 <= k < found.len() && (#[trigger] found[k]).line_number == i + 1 by {
            if i < shorter.len() {
                assert(shorter[i] == lines[i]);
                let k = choose|k: int|
                    0 <= k < earlier.len() && (#[trigger] earlier[k]).line_number == i + 1;
                assert(found[k] == earlier[k]);
            } else {
                assert(found[found.len() - 1].line_number == i + 1);
            }
        }
    }
}

/// Every match of a scan carries a line number that counts from one.
pub proof fn lemma_search_line_numbers(query: Seq<char>, files: Seq<SourceFileView>)
    ensures
        forall|k: int|
            0 <= k < search_matches(query, files).len() ==> (#[trigger] search_matches(
                query,
                files,
            )[k]).line_number >= 1,
    decreases files.len(),
{
    if files.len() == 0 {
        assert(search_matches(query, files) =~= Seq::<MatchView>::empty());
    } else {
        let earlier = files.drop_last();
        let file = files.last();
        lemma_search_line_numbers(query, earlier);
        assert(earlier.push(file) =~= files);
        earlier.lemma_flat_map_push(file_matcher(query), file);
        match file.content {
            Ok(text) => {
                lemma_line_numbers(query, file.path, lines_of(text));
            },
            Err(_) => {},
        }
        let before = search_matches(query, earlier);
        let found = search_matches(query, files);
        assert forall|k: int| 0 <= k < found.len() implies (#[trigger] found[k]).line_number
            >= 1 by {
            if k < before.len() {
                assert(found[k] == before[k]);
            } else {
                assert(found[k] == file_matches(query, file)[k - before.len()]);
            }
        }
    }
}

/// The matches of files handed over one list after another are the matches
/// of the first list followed by those of the second.
pub proof fn lemma_search_matches_concat(
    query: Seq<char>,
    a: Seq<SourceFileView>,
    b: Seq<SourceFileView>,
)
    ensures
        search_matches(query, a + b) == search_matches(query, a) + search_matches(query, b),
{
    let per_file = file_matcher(query);
    assert((a + b).map_values(per_file) =~= a.map_values(per_file) + b.map_values(per_file));
    vstd::seq_lib::lemma_flatten_concat(a.map_values(per_file), b.map_values(per_file));
}

/// The order in which the files are handed over changes the order of the
/// matches only: the same files in another order give the same matches, each
/// as often as before.
pub proof fn lemma_search_ignores_file_order(
    query: Seq<char>,
    a: Seq<SourceFileView>,
    b: Seq<SourceFileView>,
)
    requires
        a.to_multiset() == b.to_multiset(),
    ensures
        search_matches(query, a).to_multiset() == search_matches(query, b).to_multiset(),
    decreases a.len(),
{
    broadcast use vstd::seq_lib::group_to_multiset_ensures;

    if a.len() == 0 {
        assert(a.to_multiset().len() == a.len());
        assert(b.to_multiset().len() == b.len());
        assert(a =~= b);
    } else {
        let file = a.last();
        let a_rest = a.drop_last();
        assert(a_rest.push(file) =~= a);
        assert(b.to_multiset().count(file) > 0);
        assert(b.contains(file));
        let at = choose|at: int| 0 <= at < b.len() && b[at] == file;
        let b_rest = b.remove(at);
        assert(a_rest.to_multiset() =~= a.to_multiset().remove(file));
        assert(a_rest.to_multiset() == b_rest.to_multiset());
        lemma_search_ignores_file_order(query, a_rest, b_rest);
        let head = b.take(at);
        let tail = b.skip(at + 1);
        let one = seq![file];
        assert(a =~= a_rest + one);
        assert(b =~= head + one + tail);
        assert(b_rest =~= head + tail);
        lemma_search_matches_concat(query, a_rest, one);
        lemma_search_matches_concat(query, head + one, tail);
        lemma_search_matches_concat(query, head, one);
        lemma_search_matches_concat(query, head, tail);
        let m_head = search_matches(query, head);
        let m_one = search_matches(query, one);
        let m_tail = search_matches(query, tail);
        let m_rest = search_matches(query, a_rest);
        vstd::seq_lib::lemma_multiset_commutative(m_rest, m_one);
        vstd::seq_lib::lemma_multiset_commutative(m_head + m_one, m_tail);
        vstd::seq_lib::lemma_multiset_commutative(m_head, m_one);
        vstd::seq_lib::lemma_multiset_commutative(m_head, m_tail);
        assert(search_matches(query, a).to_multiset() =~= search_matches(query, b).to_multiset());
    }
}

/// Searching the same files twice gives the same tally, whatever the order in
/// which the files are found: the counts per selector depend on the set of
/// files only.
pub proof fn lemma_tally_ignores_file_order(
    query: Seq<char>,
    a: Seq<SourceFileView>,
    b: Seq<SourceFileView>,
)
    requires
        a.to_multiset() == b.to_multiset(),
    ensures
        tally_map(search_matches(query, a)) == tally_map(search_matches(query, b)),
{
    lemma_search_ignores_file_order(query, a, b);
    lemma_tally_ignores_order(search_matches(query, a), search_matches(query, b));
}

} // verus!
