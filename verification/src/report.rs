//! The persisted report: a table with one summary row per selector, each
//! followed by one location row per match of that selector, encoded as CSV.
//!
//! This module builds the rows and their columns and lets the `csv` crate
//! encode each record; writing the bytes to a file is left to the caller.

use crate::selectors::{MatchView, SelectorMatchResult};
use crate::tally::{
    count_of, distinct_selectors, entry_keys, has_selector, lemma_count_of_push,
    lemma_distinct_selectors, lemma_tally_entries, tally_entries, EntryView, Tally, TallyEntry,
};
use crate::text::{decimal_digits, decimal_string, push_decimal};
use vstd::prelude::*;
use vstd::string::StringExecFns;

verus! {

// ---------------------------------------------------------------------------
// Trusted boundary to the csv crate
// ---------------------------------------------------------------------------

/// The error type of the `csv` crate, carried through as an opaque value.
#[verifier::external_type_specification]
#[verifier::external_body]
pub struct ExCsvError(csv::Error);

/// What `csv::Writer`, in its default configuration, writes for one record
/// on its own: the bytes of the encoded line with its terminator, or `None`
/// when the writer reports an error. Quoting and escaping are the crate's
/// business, so the encoding is named here and not written out.
pub uninterp spec fn csv_record(fields: Seq<Seq<char>>) -> Option<Seq<u8>>;

/// Encodes one record with `csv::Writer::write_record`, on a writer made by
/// `csv::Writer::from_writer` over an empty byte vector and taken apart by
/// `csv::Writer::into_inner`; an error of either call is handed back.
///
/// Nothing is proved of the encoding. The contract claims only that the
/// outcome depends on the fields alone: on success the bytes are what
/// [`csv_record`] names for these fields, and a failure is one that
/// [`csv_record`] knows as `None`.
#[verifier::external_body]
fn encode_record(fields: &Vec<String>) -> (encoded: Result<Vec<u8>, csv::Error>)
    ensures
        match encoded {
            Ok(bytes) => csv_record(fields.deep_view()) == Some(bytes@),
            Err(_) => csv_record(fields.deep_view()).is_none(),
        },
{
    let mut writer = csv::Writer::from_writer(Vec::new());
    writer.write_record(fields)?;
    writer.into_inner().map_err(|e| csv::Error::from(e.into_error()))
}

/// The message of a `csv::Error`, as the `Display` implementation of the
/// `csv` crate words it. Nothing is claimed of the text.
#[verifier::external_body]
fn csv_error_message(error: &csv::Error) -> (message: String) {
    error.to_string()
}

// ---------------------------------------------------------------------------
// Model
// ---------------------------------------------------------------------------

/// Mathematical value of a [`ReportRow`].
pub ghost enum RowView {
    Header,
    Summary { selector: Seq<char>, count: nat },
    Location { line_number: nat, file_path: Seq<char> },
}

/// The text of a location: `Line N: path`.
pub open spec fn location_text(line_number: nat, file_path: Seq<char>) -> Seq<char> {
    "Line "@ + decimal_digits(line_number) + ": "@ + file_path
}

/// The three columns of a row: selector, count, locations.
pub open spec fn row_fields(row: RowView) -> Seq<Seq<char>> {
    match row {
        RowView::Header => seq!["Selector"@, "Count"@, "Locations"@],
        RowView::Summary { selector, count } => seq![
            selector,
            decimal_digits(count),
            Seq::empty(),
        ],
        RowView::Location { line_number, file_path } => seq![
            Seq::empty(),
            Seq::empty(),
            location_text(line_number, file_path),
        ],
    }
}

/// The location row of a match.
pub open spec fn location_row() -> spec_fn(MatchView) -> RowView {
    |m: MatchView| RowView::Location { line_number: m.line_number, file_path: m.file_path }
}

/// The location rows of a selector: one per match that carries it, in the
/// order of the match list.
pub open spec fn location_rows(matches: Seq<MatchView>, selector: Seq<char>) -> Seq<RowView> {
    matches.filter(has_selector(selector)).map_values(location_row())
}

/// The rows of one selector: its summary row, then its location rows.
pub open spec fn selector_rows(matches: Seq<MatchView>, entry: EntryView) -> Seq<RowView> {
    seq![RowView::Summary { selector: entry.0, count: entry.1 }] + location_rows(matches, entry.0)
}

/// [`selector_rows`] for a fixed match list.
pub open spec fn selector_block(matches: Seq<MatchView>) -> spec_fn(EntryView) -> Seq<RowView> {
    |entry: EntryView| selector_rows(matches, entry)
}

/// The rows of the whole report: the header, then the rows of each selector
/// in the order of the tally entries.
pub open spec fn report_of(matches: Seq<MatchView>, entries: Seq<EntryView>) -> Seq<RowView> {
    seq![RowView::Header] + entries.flat_map(selector_block(matches))
}

/// The records of a list of rows: the columns of each.
pub open spec fn records_of(rows: Seq<RowView>) -> Seq<Seq<Seq<char>>> {
    Seq::new(rows.len(), |i: int| row_fields(rows[i]))
}

/// Every record can be encoded.
pub open spec fn encodable(records: Seq<Seq<Seq<char>>>) -> bool {
    forall|i: int| 0 <= i < records.len() ==> (#[trigger] csv_record(records[i])).is_some()
}

/// The encoded lines of a list of records, one per record.
pub open spec fn encoded_records(records: Seq<Seq<Seq<char>>>) -> Seq<Seq<u8>> {
    Seq::new(records.len(), |i: int| csv_record(records[i]).unwrap())
}

/// The bytes of the document: the encoded lines one after the other.
pub open spec fn csv_document(records: Seq<Seq<Seq<char>>>) -> Seq<u8> {
    encoded_records(records).flatten()
}

/// The console line of a match: its location, then its selector text.
pub open spec fn match_line_text(m: MatchView) -> Seq<char> {
    location_text(m.line_number, m.file_path) + " - "@ + m.selector_text
}

/// The console line of a tally entry: the selector, then its count.
pub open spec fn entry_line_text(entry: EntryView) -> Seq<char> {
    entry.0 + ": "@ + decimal_digits(entry.1)
}

/// [`match_line_text`] as a function value.
pub open spec fn match_line() -> spec_fn(MatchView) -> Seq<char> {
    |m: MatchView| match_line_text(m)
}

/// [`entry_line_text`] as a function value.
pub open spec fn entry_line() -> spec_fn(EntryView) -> Seq<char> {
    |entry: EntryView| entry_line_text(entry)
}

/// The console rendering, line by line: a heading and every match in the
/// order of the match list, then a heading and every tally entry in the
/// order of the tally.
pub open spec fn console_text(matches: Seq<MatchView>, entries: Seq<EntryView>) -> Seq<Seq<char>> {
    seq!["List--"@] + matches.map_values(match_line()) + seq!["Tally--"@] + entries.map_values(
        entry_line(),
    )
}

/// `row` is the position of the first record that cannot be encoded.
pub open spec fn first_rejected(records: Seq<Seq<Seq<char>>>, row: int) -> bool {
    &&& 0 <= row < records.len()
    &&& csv_record(records[row]).is_none()
    &&& forall|j: int| 0 <= j < row ==> (#[trigger] csv_record(records[j])).is_some()
}

/// The outcome of rendering the given records: the bytes of the whole
/// document when every record can be encoded, and otherwise an error that
/// names the first record that cannot.
pub open spec fn is_rendering_of(
    document: Result<Vec<u8>, PersistenceError>,
    records: Seq<Seq<Seq<char>>>,
) -> bool {
    match document {
        Ok(bytes) => encodable(records) && bytes@ == csv_document(records),
        Err(error) => first_rejected(records, error.row as int),
    }
}

/// The number of summary and location rows that a list of tally entries
/// gives: for each entry one summary row and one location row per match of
/// its selector.
pub open spec fn block_rows_total(matches: Seq<MatchView>, entries: Seq<EntryView>) -> nat
    decreases entries.len(),
{
    if entries.len() == 0 {
        0
    } else {
        block_rows_total(matches, entries.drop_last()) + 1 + count_of(matches, entries.last().0)
    }
}

// ---------------------------------------------------------------------------
// Data
// ---------------------------------------------------------------------------

/// Name of the file, in the working directory, that holds the persisted
/// report. It is overwritten by every run that logs.
pub const RESULTS_FILE: &'static str = "selector_search_results.csv";

/// A row of the report.
#[derive(Debug, Clone, PartialEq, Eq)]
pub enum ReportRow {
    /// The column titles.
    Header,
    /// A selector with the number of its matches.
    Summary { selector: String, count: usize },
    /// One place where the selector of the preceding summary row was found.
    Location { line_num: usize, file_name: String },
}

impl View for ReportRow {
    type V = RowView;

    open spec fn view(&self) -> RowView {
        match self {
            ReportRow::Header => RowView::Header,
            ReportRow::Summary { selector, count } => RowView::Summary {
                selector: selector@,
                count: *count as nat,
            },
            ReportRow::Location { line_num, file_name } => RowView::Location {
                line_number: *line_num as nat,
                file_path: file_name@,
            },
        }
    }
}

impl DeepView for ReportRow {
    type V = RowView;

    open spec fn deep_view(&self) -> RowView {
        self@
    }
}

impl ReportRow {
    /// The three columns of the row as text.
    pub fn fields(&self) -> (fields: Vec<String>)
        ensures
            fields.deep_view() == row_fields(self@),
            fields.len() == 3,
    {
        let fields = match self {
            ReportRow::Header => vec![
                "Selector".to_owned(),
                "Count".to_owned(),
                "Locations".to_owned(),
            ],
            ReportRow::Summary { selector, count } => vec![
                selector.clone(),
                decimal_string(*count),
                String::new(),
            ],
            ReportRow::Location { line_num, file_name } => vec![
                String::new(),
                String::new(),
                location_string(*line_num, file_name.as_str()),
            ],
        };
        assert(fields.deep_view() =~= row_fields(self@));
        fields
    }
}

/// The encoding of a record of the report failed.
#[derive(Debug, Clone, PartialEq, Eq)]
pub struct PersistenceError {
    /// Position of the first row that could not be encoded.
    pub row: usize,
    /// What the encoder reported.
    pub message: String,
}

// ---------------------------------------------------------------------------
// Facts about the model
// ---------------------------------------------------------------------------

/// The report has one header row, and for each tally entry one summary row
/// and one location row per match of its selector.
pub proof fn lemma_report_row_count(matches: Seq<MatchView>, entries: Seq<EntryView>)
    ensures
        report_of(matches, entries).len() == 1 + block_rows_total(matches, entries),
        report_of(matches, entries)[0] == RowView::Header,
    decreases entries.len(),
{
    if entries.len() == 0 {
        assert(entries.flat_map(selector_block(matches)) =~= Seq::<RowView>::empty());
    } else {
        let earlier = entries.drop_last();
        lemma_report_row_count(matches, earlier);
        assert(earlier.push(entries.last()) =~= entries);
        earlier.lemma_flat_map_push(selector_block(matches), entries.last());
    }
}

/// How often a selector occurs in a list of keys.
spec fn occurrences(keys: Seq<Seq<char>>, selector: Seq<char>) -> nat
    decreases keys.len(),
{
    if keys.len() == 0 {
        0
    } else {
        occurrences(keys.drop_last(), selector) + if keys.last() == selector {
            1nat
        } else {
            0nat
        }
    }
}

/// A selector that is not among the keys occurs zero times.
proof fn lemma_occurrences_absent(keys: Seq<Seq<char>>, selector: Seq<char>)
    requires
        !keys.contains(selector),
    ensures
        occurrences(keys, selector) == 0,
    decreases keys.len(),
{
    if keys.len() > 0 {
        assert(keys[keys.len() - 1] != selector);
        assert forall|i: int| 0 <= i < keys.drop_last().len() implies keys.drop_last()[i]
            != selector by {
            assert(keys[i] == keys.drop_last()[i]);
        }
        lemma_occurrences_absent(keys.drop_last(), selector);
    }
}

/// Among keys without duplicates, a selector that is there occurs once.
proof fn lemma_occurrences_unique(keys: Seq<Seq<char>>, selector: Seq<char>)
    requires
        keys.no_duplicates(),
        keys.contains(selector),
    ensures
        occurrences(keys, selector) == 1,
    decreases keys.len(),
{
    let shorter = keys.drop_last();
    if keys.last() == selector {
        assert forall|i: int| 0 <= i < shorter.len() implies shorter[i] != selector by {
            assert(keys[i] == shorter[i]);
        }
        lemma_occurrences_absent(shorter, selector);
    } else {
        let at = choose|i: int| 0 <= i < keys.len() && keys[i] == selector;
        assert(shorter[at] == selector);
        lemma_occurrences_unique(shorter, selector);
    }
}

/// The total depends on the selectors of the entries only, not on the counts
/// that the entries carry.
proof fn lemma_block_rows_total_keys(
    matches: Seq<MatchView>,
    a: Seq<EntryView>,
    b: Seq<EntryView>,
)
    requires
        a.len() == b.len(),
        forall|i: int| 0 <= i < a.len() ==> a[i].0 == b[i].0,
    ensures
        block_rows_total(matches, a) == block_rows_total(matches, b),
    decreases a.len(),
{
    if a.len() > 0 {
        lemma_block_rows_total_keys(matches, a.drop_last(), b.drop_last());
    }
}

/// Appending a match raises the total by the number of entries that carry
/// its selector.
proof fn lemma_block_rows_total_push(
    matches: Seq<MatchView>,
    m: MatchView,
    entries: Seq<EntryView>,
)
    ensures
        block_rows_total(matches.push(m), entries) == block_rows_total(matches, entries)
            + occurrences(entry_keys(entries), m.selector_text),
    decreases entries.len(),
{
    let keys = entry_keys(entries);
    if entries.len() > 0 {
        lemma_block_rows_total_push(matches, m, entries.drop_last());
        lemma_count_of_push(matches, m, entries.last().0);
        assert(entry_keys(entries.drop_last()) =~= keys.drop_last());
    }
}

/// Over the distinct selectors of a match list, the counts add up to the
/// number of matches.
proof fn lemma_block_rows_total_of_tally(matches: Seq<MatchView>)
    ensures
        block_rows_total(matches, tally_entries(matches)) == distinct_selectors(matches).len()
            + matches.len(),
    decreases matches.len(),
{
    let entries = tally_entries(matches);
    if matches.len() == 0 {
        assert(entries =~= Seq::<EntryView>::empty());
    } else {
        let earlier_matches = matches.drop_last();
        let last = matches.last();
        let earlier = tally_entries(earlier_matches);
        let keys = distinct_selectors(earlier_matches);
        lemma_block_rows_total_of_tally(earlier_matches);
        lemma_distinct_selectors(earlier_matches);
        lemma_tally_entries(earlier_matches);
        assert(earlier_matches.push(last) =~= matches);
        lemma_block_rows_total_push(earlier_matches, last, earlier);
        let relabelled = Seq::new(
            earlier.len(),
            |i: int| (earlier[i].0, count_of(matches, earlier[i].0)),
        );
        lemma_block_rows_total_keys(matches, earlier, relabelled);
        if keys.contains(last.selector_text) {
            assert(entries =~= relabelled);
            lemma_occurrences_unique(keys, last.selector_text);
        } else {
            lemma_count_of_push(earlier_matches, last, last.selector_text);
            assert(entries =~= relabelled.push((last.selector_text, 1nat)));
            assert(entries.drop_last() =~= relabelled);
            lemma_occurrences_absent(keys, last.selector_text);
        }
    }
}

/// With the tally of the match list itself, the report has one header row,
/// one summary row per distinct selector and one location row per match.
pub proof fn lemma_tally_report_row_count(matches: Seq<MatchView>)
    ensures
        report_of(matches, tally_entries(matches)).len() == 1 + distinct_selectors(matches).len()
            + matches.len(),
{
    lemma_report_row_count(matches, tally_entries(matches));
    lemma_block_rows_total_of_tally(matches);
}

// ---------------------------------------------------------------------------
// Reporter
// ---------------------------------------------------------------------------

/// The text of a location: `Line N: path`.
pub fn location_string(line_num: usize, file_name: &str) -> (text: String)
    ensures
        text@ == location_text(line_num as nat, file_name@),
{
    let mut text = "Line ".to_owned();
    push_decimal(&mut text, line_num);
    text.append(": ");
    text.append(file_name);
    text
}

/// Renders the matches and the tally for the console, one string per line.
/// The text is meant for people, not for programs.
pub fn render_console(match_list: &Vec<SelectorMatchResult>, tally: &Tally) -> (lines: Vec<String>)
    ensures
        lines.deep_view() == console_text(match_list.deep_view(), tally.entries()),
        lines.len() == 2 + match_list.len() + tally.entries().len(),
{
    let ghost matches = match_list.deep_view();
    let entries: &Vec<TallyEntry> = tally.as_entries();
    let ghost all = entries.deep_view();
    let mut lines: Vec<String> = Vec::new();
    lines.push("List--".to_owned());
    let mut i: usize = 0;
    assert(lines.deep_view() =~= seq!["List--"@] + matches.take(0).map_values(match_line()));
    while i < match_list.len()
        invariant
            i <= match_list.len(),
            matches == match_list.deep_view(),
            lines.deep_view() == seq!["List--"@] + matches.take(i as int).map_values(match_line()),
        decreases match_list.len() - i,
    {
        let found = &match_list[i];
        let ghost before = lines.deep_view();
        let mut line = location_string(found.line_num, found.file_name.as_str());
        line.append(" - ");
        line.append(found.selector.as_str());
        lines.push(line);
        proof {
            assert(matches[i as int] == found@);
            assert(lines.deep_view() =~= before.push(match_line_text(found@)));
            assert(matches.take(i + 1).map_values(match_line()) =~= matches.take(
                i as int,
            ).map_values(match_line()).push(match_line_text(found@)));
        }
        i += 1;
    }
    assert(matches.take(i as int) =~= matches);
    let ghost head = seq!["List--"@] + matches.map_values(match_line()) + seq!["Tally--"@];
    lines.push("Tally--".to_owned());
    let mut k: usize = 0;
    assert(lines.deep_view() =~= head + all.take(0).map_values(entry_line()));
    while k < entries.len()
        invariant
            k <= entries.len(),
            all == entries.deep_view(),
            head.len() == 2 + match_list.len(),
            lines.deep_view() == head + all.take(k as int).map_values(entry_line()),
        decreases entries.len() - k,
    {
        let entry = &entries[k];
        let ghost before = lines.deep_view();
        let mut line = entry.selector.clone();
        line.append(": ");
        push_decimal(&mut line, entry.count);
        lines.push(line);
        proof {
            assert(all[k as int] == entry@);
            assert(lines.deep_view() =~= before.push(entry_line_text(entry@)));
            assert(all.take(k + 1).map_values(entry_line()) =~= all.take(k as int).map_values(
                entry_line(),
            ).push(entry_line_text(entry@)));
        }
        k += 1;
    }
    assert(all.take(k as int) =~= all);
    assert(lines.deep_view().len() == lines.len());
    lines
}

/// Appends the location rows of one selector to `rows`.
fn push_location_rows(
    rows: &mut Vec<ReportRow>,
    match_list: &Vec<SelectorMatchResult>,
    selector: &String,
)
    ensures
        final(rows).deep_view() == old(rows).deep_view() + location_rows(
            match_list.deep_view(),
            selector@,
        ),
{
    let ghost matches = match_list.deep_view();
    let ghost start = rows.deep_view();
    let ghost wanted = has_selector(selector@);
    let mut i: usize = 0;
    assert(matches.take(0).filter(wanted) =~= Seq::<MatchView>::empty()) by {
        matches.take(0).lemma_filter_len(wanted);
    }
    assert(rows.deep_view() =~= start + matches.take(0).filter(wanted).map_values(location_row()));
    while i < match_list.len()
        invariant
            i <= match_list.len(),
            matches == match_list.deep_view(),
            wanted == has_selector(selector@),
            rows.deep_view() == start + matches.take(i as int).filter(wanted).map_values(
                location_row(),
            ),
        decreases match_list.len() - i,
    {
        let found = &match_list[i];
        let ghost before = rows.deep_view();
        proof {
            assert(matches.take(i + 1) =~= matches.take(i as int).push(matches[i as int]));
            matches.take(i as int).lemma_filter_push(matches[i as int], wanted);
            assert(matches[i as int] == found@);
        }
        if found.selector == *selector {
            rows.push(
                ReportRow::Location {
                    line_num: found.line_num,
                    file_name: found.file_name.clone(),
                },
            );
            assert(rows.deep_view() =~= before.push(location_row()(found@)));
            assert(rows.deep_view() =~= start + matches.take(i + 1).filter(wanted).map_values(
                location_row(),
            ));
        }
        i += 1;
    }
    assert(matches.take(i as int) =~= matches);
}

/// Builds the rows of the report: the header, then for each selector of the
/// tally, in the order of the tally, its summary row followed by one location
/// row per match of that selector, in the order of the match list.
pub fn report_rows(match_list: &Vec<SelectorMatchResult>, tally: &Tally) -> (rows: Vec<ReportRow>)
    ensures
        rows.deep_view() == report_of(match_list.deep_view(), tally.entries()),
        rows.len() == 1 + block_rows_total(match_list.deep_view(), tally.entries()),
        rows[0]@ == RowView::Header,
{
    let ghost matches = match_list.deep_view();
    let ghost block = selector_block(matches);
    let entries: &Vec<TallyEntry> = tally.as_entries();
    let ghost all = entries.deep_view();
    let mut rows: Vec<ReportRow> = Vec::new();
    rows.push(ReportRow::Header);
    let mut k: usize = 0;
    assert(rows.deep_view() =~= seq![RowView::Header] + all.take(0).flat_map(block));
    while k < entries.len()
        invariant
            k <= entries.len(),
            matches == match_list.deep_view(),
            block == selector_block(matches),
            all == entries.deep_view(),
            rows.deep_view() == seq![RowView::Header] + all.take(k as int).flat_map(block),
        decreases entries.len() - k,
    {
        let entry = &entries[k];
        let ghost before = rows.deep_view();
        proof {
            all.lemma_flat_map_take_append(block, k as int);
            assert(all[k as int] == entry@);
        }
        rows.push(ReportRow::Summary { selector: entry.selector.clone(), count: entry.count });
        assert(rows.deep_view() =~= before.push(
            RowView::Summary { selector: entry.selector@, count: entry.count as nat },
        ));
        push_location_rows(&mut rows, match_list, &entry.selector);
        assert(rows.deep_view() =~= seq![RowView::Header] + all.take(k + 1).flat_map(block));
        k += 1;
    }
    proof {
        assert(all.take(k as int) =~= all);
        lemma_report_row_count(matches, all);
        assert(rows.deep_view()[0] == rows[0]@);
    }
    rows
}

/// Encodes every row as one CSV record, in order.
///
/// Fails at the first row that the encoder rejects.
pub fn encode_rows(rows: &Vec<ReportRow>) -> (encoded: Result<Vec<Vec<u8>>, PersistenceError>)
    ensures
        match encoded {
            Ok(lines) => {
                &&& encodable(records_of(rows.deep_view()))
                &&& lines.deep_view() == encoded_records(records_of(rows.deep_view()))
                &&& lines.len() == rows.len()
            },
            Err(error) => first_rejected(records_of(rows.deep_view()), error.row as int),
        },
{
    let ghost records = records_of(rows.deep_view());
    let mut lines: Vec<Vec<u8>> = Vec::new();
    let mut i: usize = 0;
    while i < rows.len()
        invariant
            i <= rows.len(),
            records == records_of(rows.deep_view()),
            lines.len() == i,
            forall|j: int| 0 <= j < i ==> csv_record(#[trigger] records[j]) == Some(lines[j]@),
        decreases rows.len() - i,
    {
        let fields = rows[i].fields();
        assert(records[i as int] == row_fields(rows[i as int]@));
        match encode_record(&fields) {
            Ok(bytes) => {
                lines.push(bytes);
            },
            Err(error) => {
                let message = csv_error_message(&error);
                return Err(PersistenceError { row: i, message });
            },
        }
        i += 1;
    }
    proof {
        assert forall|j: int| 0 <= j < lines.len() implies lines.deep_view()[j]
            == encoded_records(records)[j] by {
            assert(lines[j].deep_view() =~= lines[j]@);
            assert(csv_record(records[j]) == Some(lines[j]@));
        }
        assert(lines.deep_view() =~= encoded_records(records));
    }
    Ok(lines)
}

/// Joins encoded lines into one document, in order.
pub fn join_records(lines: &Vec<Vec<u8>>) -> (document: Vec<u8>)
    ensures
        document@ == lines.deep_view().flatten(),
{
    let ghost all = lines.deep_view();
    let mut document: Vec<u8> = Vec::new();
    let mut i: usize = 0;
    assert(all.take(0).flatten() =~= Seq::<u8>::empty());
    while i < lines.len()
        invariant
            i <= lines.len(),
            all == lines.deep_view(),
            document@ == all.take(i as int).flatten(),
        decreases lines.len() - i,
    {
        let line = &lines[i];
        let ghost before = document@;
        let mut k: usize = 0;
        while k < line.len()
            invariant
                k <= line.len(),
                document@ == before + line@.take(k as int),
            decreases line.len() - k,
        {
            document.push(line[k]);
            assert(line@.take(k + 1) =~= line@.take(k as int).push(line[k as int]));
            k += 1;
        }
        proof {
            assert(line@.take(k as int) =~= line@);
            assert(all[i as int] =~= line@);
            assert(all.take(i + 1) =~= all.take(i as int).push(all[i as int]));
            all.take(i as int).lemma_flatten_push(all[i as int]);
        }
        i += 1;
    }
    assert(all.take(i as int) =~= all);
    document
}

/// Renders the persisted report: the CSV document with the header row first,
/// then for each selector of the tally its summary row and its location rows.
///
/// The bytes hold the whole document; nothing is handed back when a record
/// cannot be encoded.
pub fn log_results(match_list: &Vec<SelectorMatchResult>, tally: &Tally) -> (document: Result<
    Vec<u8>,
    PersistenceError,
>)
    ensures
        is_rendering_of(
            document,
            records_of(report_of(match_list.deep_view(), tally.entries())),
        ),
{
    let rows = report_rows(match_list, tally);
    match encode_rows(&rows) {
        Ok(lines) => Ok(join_records(&lines)),
        Err(error) => Err(error),
    }
}

} // verus!
