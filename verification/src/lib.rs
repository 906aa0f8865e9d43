//! Searching stylesheet sources for selector-like lines.
//!
//! The search takes the text lines of the files under a target, keeps the
//! lines that hold an opening brace, filters them by a literal query, counts
//! the matches per normalized selector text and renders the outcome for the
//! console and as a CSV document:
//!
//! - [`text`]: brace detection, substring test, normalization, numerals;
//! - [`selectors`]: line extraction, matching and the search as a whole;
//! - [`tally`]: the counts per selector;
//! - [`report`]: the rows of the report, its console text and its CSV bytes.
//!
//! Nothing here touches the file system: the caller finds and reads the
//! files and writes the document.

pub mod report;
pub mod selectors;
pub mod tally;
pub mod text;
