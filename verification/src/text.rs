//! Character-level text operations: line splitting, brace detection, literal
//! substring search, selector normalization and decimal rendering.
//!
//! Every string is modelled by its sequence of characters (`Seq<char>`), and
//! the executable functions work on `Vec<char>` so that each character is
//! decoded once.

use vstd::prelude::*;

verus! {

// ---------------------------------------------------------------------------
// Trusted boundary to std
// ---------------------------------------------------------------------------

/// Whether a character has the Unicode `White_Space` property, which is what
/// `char::is_whitespace` reports. The property is defined by the Unicode
/// character database, so it is named here instead of being written out.
pub uninterp spec fn unicode_white_space(c: char) -> bool;

/// `char::is_whitespace` tells whether its argument has the `White_Space`
/// property. This is taken from the documentation of std and not proved.
pub assume_specification[ char::is_whitespace ](c: char) -> (r: bool)
    ensures
        r == unicode_white_space(c),
;

/// `String::push` appends the given character to the end of the string and
/// changes nothing else. This is taken from the documentation of std and not
/// proved.
pub assume_specification[ String::push ](s: &mut String, ch: char)
    ensures
        final(s)@ == old(s)@.push(ch),
;

// ---------------------------------------------------------------------------
// Model
// ---------------------------------------------------------------------------

/// The number of characters of a text that stand before its first line feed;
/// the whole length when it has none.
pub open spec fn first_line_len(text: Seq<char>) -> nat
    decreases text.len(),
{
    if text.len() == 0 || text[0] == '\n' {
        0
    } else {
        1 + first_line_len(text.drop_first())
    }
}

/// A line without the carriage return that may end it.
pub open spec fn strip_carriage_return(line: Seq<char>) -> Seq<char> {
    if line.len() > 0 && line.last() == '\r' {
        line.drop_last()
    } else {
        line
    }
}

/// The lines of a text. A line ends at a line feed, or at a carriage return
/// followed by a line feed; the line ending is not part of the line. What
/// follows the last line feed is a line of its own unless it is empty.
pub open spec fn lines_of(text: Seq<char>) -> Seq<Seq<char>>
    decreases text.len(),
{
    if text.len() == 0 {
        Seq::empty()
    } else {
        let end = first_line_len(text) as int;
        if end < text.len() {
            seq![strip_carriage_return(text.take(end))] + lines_of(text.skip(end + 1))
        } else {
            seq![text]
        }
    }
}

/// A line is selector-like when it holds an opening brace anywhere.
pub open spec fn has_brace(line: Seq<char>) -> bool {
    line.contains('{')
}

/// `pattern` occurs in `text` starting at character position `at`.
pub open spec fn occurs_at(text: Seq<char>, pattern: Seq<char>, at: int) -> bool {
    &&& 0 <= at
    &&& at + pattern.len() <= text.len()
    &&& text.subrange(at, at + pattern.len()) == pattern
}

/// `pattern` is a literal, case-sensitive substring of `text`. The empty
/// pattern is a substring of every text.
pub open spec fn contains_substring(text: Seq<char>, pattern: Seq<char>) -> bool {
    exists|at: int| #[trigger] occurs_at(text, pattern, at)
}

/// `raw` without its first opening brace; unchanged when it has none.
pub open spec fn strip_first_brace(raw: Seq<char>) -> Seq<char> {
    match raw.index_of_first('{') {
        Some(at) => raw.remove(at),
        None => raw,
    }
}

/// `text` without its trailing run of white space.
pub open spec fn trim_end(text: Seq<char>) -> Seq<char>
    decreases text.len(),
{
    if text.len() > 0 && unicode_white_space(text.last()) {
        trim_end(text.drop_last())
    } else {
        text
    }
}

/// The selector text of a raw line: the first opening brace is removed, then
/// trailing white space is trimmed. Leading white space stays.
pub open spec fn normalize_selector(raw: Seq<char>) -> Seq<char> {
    trim_end(strip_first_brace(raw))
}

/// The character of a decimal digit.
pub open spec fn digit_char(d: nat) -> char {
    if d == 0 {
        '0'
    } else if d == 1 {
        '1'
    } else if d == 2 {
        '2'
    } else if d == 3 {
        '3'
    } else if d == 4 {
        '4'
    } else if d == 5 {
        '5'
    } else if d == 6 {
        '6'
    } else if d == 7 {
        '7'
    } else if d == 8 {
        '8'
    } else {
        '9'
    }
}

/// The decimal numeral of `n`, without sign or leading zeros.
pub open spec fn decimal_digits(n: nat) -> Seq<char>
    decreases n,
{
    if n < 10 {
        seq![digit_char(n)]
    } else {
        decimal_digits(n / 10).push(digit_char(n % 10))
    }
}

// ---------------------------------------------------------------------------
// Facts about the model
// ---------------------------------------------------------------------------

/// A text whose first `len` characters hold no line feed, and which has a
/// line feed right behind them or ends there, has a first line of that
/// length.
pub proof fn lemma_first_line_len_is(text: Seq<char>, len: int)
    requires
        0 <= len <= text.len(),
        forall|j: int| 0 <= j < len ==> text[j] != '\n',
        len < text.len() ==> text[len] == '\n',
    ensures
        first_line_len(text) == len,
    decreases text.len(),
{
    if len > 0 {
        let rest = text.drop_first();
        assert forall|j: int| 0 <= j < len - 1 implies rest[j] != '\n' by {
            assert(rest[j] == text[j + 1]);
        }
        lemma_first_line_len_is(rest, len - 1);
    }
}

/// A line followed by a line feed and more text: the lines are that line,
/// without its carriage return, and then the lines of the rest.
pub proof fn lemma_lines_of_first(line: Seq<char>, rest: Seq<char>)
    requires
        forall|j: int| 0 <= j < line.len() ==> line[j] != '\n',
    ensures
        lines_of(line + seq!['\n'] + rest) == seq![strip_carriage_return(line)] + lines_of(rest),
{
    let text = line + seq!['\n'] + rest;
    lemma_first_line_len_is(text, line.len() as int);
    assert(text.take(line.len() as int) =~= line);
    assert(text.skip(line.len() as int + 1) =~= rest);
}

/// Text without a line feed is one line, and no line when it is empty.
pub proof fn lemma_lines_of_last(line: Seq<char>)
    requires
        forall|j: int| 0 <= j < line.len() ==> line[j] != '\n',
    ensures
        lines_of(line) == if line.len() == 0 {
            Seq::<Seq<char>>::empty()
        } else {
            seq![line]
        },
{
    lemma_first_line_len_is(line, line.len() as int);
}

/// Trimming yields a prefix of the text, drops white space only, and leaves
/// nothing that still ends in white space.
pub proof fn lemma_trim_end_characterized(text: Seq<char>)
    ensures
        trim_end(text).len() <= text.len(),
        trim_end(text) == text.take(trim_end(text).len() as int),
        forall|i: int| trim_end(text).len() <= i < text.len() ==> unicode_white_space(text[i]),
        trim_end(text).len() > 0 ==> !unicode_white_space(trim_end(text).last()),
    decreases text.len(),
{
    if text.len() > 0 && unicode_white_space(text.last()) {
        let shorter = text.drop_last();
        lemma_trim_end_characterized(shorter);
        let kept = trim_end(shorter).len() as int;
        assert(shorter.take(kept) =~= text.take(kept));
        assert forall|i: int| kept <= i < text.len() implies unicode_white_space(text[i]) by {
            if i < shorter.len() {
                assert(shorter[i] == text[i]);
            }
        }
    } else {
        assert(text.take(text.len() as int) =~= text);
    }
}

/// Stripping removes exactly one character when there is a brace, namely the
/// first one, and none otherwise.
pub proof fn lemma_strip_first_brace_characterized(raw: Seq<char>)
    ensures
        !has_brace(raw) ==> strip_first_brace(raw) == raw,
        has_brace(raw) ==> exists|at: int|
            {
                &&& 0 <= at < raw.len()
                &&& raw[at] == '{'
                &&& (forall|j: int| 0 <= j < at ==> raw[j] != '{')
                &&& #[trigger] raw.remove(at) == strip_first_brace(raw)
            },
{
    raw.index_of_first_ensures('{');
    if has_brace(raw) {
        let at = raw.index_of_first('{').unwrap();
        assert(raw.remove(at) == strip_first_brace(raw));
    }
}

// ---------------------------------------------------------------------------
// Executable functions
// ---------------------------------------------------------------------------

/// Decodes a string into its characters.
pub fn to_chars(s: &str) -> (chars: Vec<char>)
    ensures
        chars@ == s@,
{
    let mut chars: Vec<char> = Vec::new();
    for c in it: s.chars()
        invariant
            it.seq() == s@,
            chars@ == it.seq().take(it.index() as int),
    {
        chars.push(c);
    }
    chars
}

/// Builds a string from the first `len` characters of `chars`.
fn prefix_string(chars: &Vec<char>, len: usize) -> (s: String)
    requires
        len <= chars.len(),
    ensures
        s@ == chars@.take(len as int),
{
    let mut s = String::new();
    let mut i: usize = 0;
    while i < len
        invariant
            i <= len <= chars.len(),
            s@ == chars@.take(i as int),
        decreases len - i,
    {
        s.push(chars[i]);
        i += 1;
    }
    s
}

/// Splits a text into its lines.
pub fn split_lines(text: &str) -> (lines: Vec<String>)
    ensures
        lines.deep_view() == lines_of(text@),
{
    let mut lines: Vec<String> = Vec::new();
    let mut current: Vec<char> = Vec::new();
    assert(current@ + text@.skip(0) =~= text@);
    assert(lines.deep_view() + lines_of(text@) =~= lines_of(text@));
    for c in it: text.chars()
        invariant
            it.seq() == text@,
            forall|j: int| 0 <= j < current.len() ==> current[j] != '\n',
            lines_of(text@) == lines.deep_view() + lines_of(
                current@ + it.seq().skip(it.index() as int),
            ),
    {
        let ghost done = lines.deep_view();
        let ghost rest = it.seq().skip(it.index() + 1);
        assert(it.seq().skip(it.index() as int) =~= seq![c] + rest);
        if c == '\n' {
            let len = if current.len() > 0 && current[current.len() - 1] == '\r' {
                current.len() - 1
            } else {
                current.len()
            };
            let line = prefix_string(&current, len);
            proof {
                assert(current@.take(current.len() as int) =~= current@);
                assert(line@ == strip_carriage_return(current@));
                assert(current@ + (seq![c] + rest) =~= current@ + seq!['\n'] + rest);
                lemma_lines_of_first(current@, rest);
            }
            lines.push(line);
            current = Vec::new();
            proof {
                assert(lines.deep_view() =~= done.push(line@));
                assert(current@ + rest =~= rest);
                assert(done + (seq![line@] + lines_of(rest)) =~= done.push(line@) + lines_of(rest));
            }
        } else {
            let ghost before = current@;
            current.push(c);
            assert(before + (seq![c] + rest) =~= current@ + rest);
        }
    }
    proof {
        assert(current@ + text@.skip(text@.len() as int) =~= current@);
        lemma_lines_of_last(current@);
    }
    let ghost done = lines.deep_view();
    if current.len() > 0 {
        let line = prefix_string(&current, current.len());
        assert(current@.take(current.len() as int) =~= current@);
        lines.push(line);
        assert(lines.deep_view() =~= done + seq![current@]);
    } else {
        assert(done + Seq::<Seq<char>>::empty() =~= done);
    }
    lines
}

/// Tells whether a line holds an opening brace.
pub fn line_has_brace(line: &str) -> (found: bool)
    ensures
        found == has_brace(line@),
{
    let mut found = false;
    for c in it: line.chars()
        invariant
            it.seq() == line@,
            found == has_brace(it.seq().take(it.index() as int)),
    {
        proof {
            let before = it.seq().take(it.index() as int);
            let after = it.seq().take(it.index() + 1);
            assert(after =~= before.push(c));
            if has_brace(before) {
                let at = choose|at: int| 0 <= at < before.len() && before[at] == '{';
                assert(after[at] == '{');
            }
            if c == '{' {
                assert(after[it.index() as int] == '{');
            }
        }
        if c == '{' {
            found = true;
        }
    }
    assert(line@.take(line@.len() as int) =~= line@);
    found
}

/// Position of the first opening brace, if there is one.
pub fn first_brace(chars: &Vec<char>) -> (found: Option<usize>)
    ensures
        match found {
            Some(at) => chars@.index_of_first('{') == Some(at as int),
            None => chars@.index_of_first('{').is_none(),
        },
{
    let mut i: usize = 0;
    while i < chars.len()
        invariant
            i <= chars.len(),
            forall|j: int| 0 <= j < i ==> chars[j] != '{',
        decreases chars.len() - i,
    {
        if chars[i] == '{' {
            proof {
                chars@.index_of_first_ensures('{');
            }
            return Some(i);
        }
        i += 1;
    }
    proof {
        chars@.index_of_first_ensures('{');
    }
    None
}

/// Tells whether `pattern` occurs in `text` at position `at`.
fn matches_at(text: &Vec<char>, pattern: &Vec<char>, at: usize) -> (hit: bool)
    requires
        at + pattern.len() <= text.len(),
    ensures
        hit == occurs_at(text@, pattern@, at as int),
{
    let mut k: usize = 0;
    while k < pattern.len()
        invariant
            k <= pattern.len(),
            at + pattern.len() <= text.len(),
            forall|j: int| 0 <= j < k ==> text[at + j] == pattern[j],
        decreases pattern.len() - k,
    {
        if text[at + k] != pattern[k] {
            assert(text@.subrange(at as int, at + pattern.len())[k as int] != pattern[k as int]);
            return false;
        }
        k += 1;
    }
    assert(text@.subrange(at as int, at + pattern.len()) =~= pattern@);
    true
}

/// Literal, case-sensitive substring test on decoded text.
pub fn contains_chars(text: &Vec<char>, pattern: &Vec<char>) -> (found: bool)
    ensures
        found == contains_substring(text@, pattern@),
{
    if pattern.len() > text.len() {
        return false;
    }
    let last: usize = text.len() - pattern.len();
    let mut at: usize = 0;
    loop
        invariant
            last == text.len() - pattern.len(),
            at <= last,
            forall|j: int| 0 <= j < at ==> !occurs_at(text@, pattern@, j),
        decreases last - at,
    {
        if matches_at(text, pattern, at) {
            return true;
        }
        if at == last {
            return false;
        }
        at += 1;
    }
}

/// Literal, case-sensitive substring test on strings.
pub fn line_contains(line: &str, query: &str) -> (found: bool)
    ensures
        found == contains_substring(line@, query@),
{
    let text = to_chars(line);
    let pattern = to_chars(query);
    contains_chars(&text, &pattern)
}

/// Removes the first opening brace from decoded text; text without a brace
/// is handed back as it is.
pub fn strip_brace(raw: &Vec<char>) -> (stripped: Vec<char>)
    ensures
        stripped@ == strip_first_brace(raw@),
        !has_brace(raw@) ==> stripped@ == raw@,
        has_brace(raw@) ==> stripped.len() + 1 == raw.len(),
{
    let brace = first_brace(raw);
    proof {
        raw@.index_of_first_ensures('{');
    }
    let mut stripped: Vec<char> = Vec::new();
    let mut i: usize = 0;
    while i < raw.len()
        invariant
            i <= raw.len(),
            match brace {
                Some(at) => at < raw.len() && stripped@ == if i <= at {
                    raw@.take(i as int)
                } else {
                    raw@.take(i as int).remove(at as int)
                },
                None => stripped@ == raw@.take(i as int),
            },
        decreases raw.len() - i,
    {
        let is_first_brace = match brace {
            Some(at) => at == i,
            None => false,
        };
        if !is_first_brace {
            stripped.push(raw[i]);
        }
        proof {
            let seen = raw@.take(i as int);
            let next = raw@.take(i + 1);
            assert(next =~= seen.push(raw[i as int]));
            match brace {
                Some(at) => {
                    if i == at {
                        assert(next.remove(at as int) =~= seen);
                    } else if i > at {
                        let shorter = seen.remove(at as int);
                        assert(next.remove(at as int) =~= shorter.push(raw[i as int]));
                    }
                },
                None => {},
            }
        }
        i += 1;
    }
    proof {
        assert(raw@.take(raw.len() as int) =~= raw@);
        lemma_strip_first_brace_characterized(raw@);
    }
    stripped
}

/// The length of decoded text without its trailing white space: what lies
/// behind that length is white space, and what lies before it does not end
/// in white space.
pub fn trimmed_len(text: &Vec<char>) -> (len: usize)
    ensures
        len <= text.len(),
        text@.take(len as int) == trim_end(text@),
        forall|i: int| len <= i < text.len() ==> unicode_white_space(text[i]),
        len > 0 ==> !unicode_white_space(text[len - 1]),
{
    let mut len: usize = text.len();
    assert(text@.take(len as int) =~= text@);
    while len > 0 && text[len - 1].is_whitespace()
        invariant
            len <= text.len(),
            trim_end(text@) == trim_end(text@.take(len as int)),
        decreases len,
    {
        proof {
            let current = text@.take(len as int);
            assert(current.last() == text[len - 1]);
            assert(current.drop_last() =~= text@.take(len - 1));
        }
        len -= 1;
    }
    proof {
        let current = text@.take(len as int);
        if len > 0 {
            assert(current.last() == text[len - 1]);
        }
        assert(trim_end(current) == current);
        lemma_trim_end_characterized(text@);
    }
    len
}

/// Normalizes decoded raw text into selector text.
pub fn normalize_chars(raw: &Vec<char>) -> (selector: String)
    ensures
        selector@ == normalize_selector(raw@),
{
    let stripped = strip_brace(raw);
    let len = trimmed_len(&stripped);
    prefix_string(&stripped, len)
}

/// Normalizes a raw line into selector text.
pub fn normalize_line(raw: &str) -> (selector: String)
    ensures
        selector@ == normalize_selector(raw@),
{
    let chars = to_chars(raw);
    normalize_chars(&chars)
}

/// The character of one decimal digit.
fn digit(d: usize) -> (c: char)
    requires
        d < 10,
    ensures
        c == digit_char(d as nat),
{
    match d {
        0 => '0',
        1 => '1',
        2 => '2',
        3 => '3',
        4 => '4',
        5 => '5',
        6 => '6',
        7 => '7',
        8 => '8',
        _ => '9',
    }
}

/// Appends the decimal numeral of `n` to `out`.
pub fn push_decimal(out: &mut String, n: usize)
    ensures
        final(out)@ == old(out)@ + decimal_digits(n as nat),
    decreases n,
{
    if n >= 10 {
        push_decimal(out, n / 10);
    }
    out.push(digit(n % 10));
    assert(out@ =~= old(out)@ + decimal_digits(n as nat));
}

/// The decimal numeral of `n` as a string.
pub fn decimal_string(n: usize) -> (s: String)
    ensures
        s@ == decimal_digits(n as nat),
{
    let mut s = String::new();
    push_decimal(&mut s, n);
    assert(Seq::<char>::empty() + decimal_digits(n as nat) =~= decimal_digits(n as nat));
    s
}

} // verus!
