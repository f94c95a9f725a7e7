//! Reading a log: which of its lines report errors, warnings or info, and what they normalize to.

use vstd::prelude::*;
use vstd::utf8::is_ascii_chars;

use crate::normalize::{normalize_log_line, normalized, LinePatterns};
use crate::text::{chars_of, contains, lines_of, occurs_in, split_lines, texts};

verus! {

/// What a line reports.
#[derive(Debug, Clone, Copy, PartialEq, Eq, Structural)]
pub enum Severity {
    Error,
    Warning,
    Info,
    Other,
}

/// The lines of a log that matter: errors and warnings as `(normalized, original)` pairs, and
/// the number of info messages.
pub struct LogLines {
    pub errors: Vec<(String, String)>,
    pub warnings: Vec<(String, String)>,
    pub info_count: usize,
}

// ---- Meaning ----

/// What `str::to_lowercase` makes of a text.
pub uninterp spec fn lowercase(text: Seq<char>) -> Seq<char>;

/// An ASCII text with its capital letters made small.
pub open spec fn ascii_lowercase(text: Seq<char>) -> Seq<char> {
    text.map_values(
        |c: char|
            if 'A' <= c <= 'Z' {
                (c as u32 + 32) as char
            } else {
                c
            },
    )
}

/// What a line in lower case reports, by the words that occur in it.
pub open spec fn severity_of(lower: Seq<char>) -> Severity {
    if occurs_in("error"@, lower) || occurs_in("fatal"@, lower) || occurs_in("panic"@, lower) {
        Severity::Error
    } else if occurs_in("warn"@, lower) {
        Severity::Warning
    } else if occurs_in("info"@, lower) {
        Severity::Info
    } else {
        Severity::Other
    }
}

/// A text in lower case.
pub open spec fn in_lower_case(text: Seq<char>) -> Seq<char> {
    if is_ascii_chars(text) {
        ascii_lowercase(text)
    } else {
        lowercase(text)
    }
}

/// What a line reports, whatever the case of its letters.
pub open spec fn line_severity(line: Seq<char>) -> Severity {
    severity_of(in_lower_case(line))
}

/// The lines that report the given severity, in order.
pub open spec fn lines_with(lines: Seq<Seq<char>>, severity: Severity) -> Seq<Seq<char>> {
    lines.filter(|line: Seq<char>| line_severity(line) == severity)
}

/// Each line with its normalized form before it.
pub open spec fn with_normalized(lines: Seq<Seq<char>>) -> Seq<(Seq<char>, Seq<char>)> {
    lines.map_values(|line: Seq<char>| (normalized(line), line))
}

/// The contents of pairs of strings.
pub open spec fn pairs(lines: Seq<(String, String)>) -> Seq<(Seq<char>, Seq<char>)> {
    Seq::new(lines.len(), |i: int| (lines[i].0@, lines[i].1@))
}

/// The normalized forms.
pub open spec fn keys(lines: Seq<(Seq<char>, Seq<char>)>) -> Seq<Seq<char>> {
    lines.map_values(|line: (Seq<char>, Seq<char>)| line.0)
}

/// The contents of `LogLines`.
#[verifier::ext_equal]
pub struct LogModel {
    pub errors: Seq<(Seq<char>, Seq<char>)>,
    pub warnings: Seq<(Seq<char>, Seq<char>)>,
    pub info_count: nat,
}

impl View for LogLines {
    type V = LogModel;

    open spec fn view(&self) -> LogModel {
        LogModel {
            errors: pairs(self.errors@),
            warnings: pairs(self.warnings@),
            info_count: self.info_count as nat,
        }
    }
}

/// The log after one more line.
pub open spec fn recorded(
    log: LogModel,
    severity: Severity,
    normalized: Seq<char>,
    line: Seq<char>,
) -> LogModel {
    match severity {
        Severity::Error => LogModel { errors: log.errors.push((normalized, line)), ..log },
        Severity::Warning => LogModel { warnings: log.warnings.push((normalized, line)), ..log },
        Severity::Info => LogModel { info_count: log.info_count + 1, ..log },
        Severity::Other => log,
    }
}

/// What matters in the given lines.
pub open spec fn collected(lines: Seq<Seq<char>>) -> LogModel {
    LogModel {
        errors: with_normalized(lines_with(lines, Severity::Error)),
        warnings: with_normalized(lines_with(lines, Severity::Warning)),
        info_count: lines_with(lines, Severity::Info).len(),
    }
}

// ---- Outside functions ----

/// `str::to_lowercase` returns the lowercase equivalent of a string, which depends on the
/// string alone. Of an ASCII string, the letters from `A` to `Z` change to those from `a` to
/// `z` and nothing else does.
pub assume_specification[ str::to_lowercase ](s: &str) -> (r: String)
    ensures
        r@ == lowercase(s@),
        is_ascii_chars(s@) ==> r@ == ascii_lowercase(s@),
;

// ---- Functions ----

/// Tells from a line in lower case what the line reports.
pub fn classify(lower: &str) -> (r: Severity)
    ensures
        r == severity_of(lower@),
{
    let chars = chars_of(lower);
    let hay = chars.as_slice();
    if contains(hay, "error") || contains(hay, "fatal") || contains(hay, "panic") {
        Severity::Error
    } else if contains(hay, "warn") {
        Severity::Warning
    } else if contains(hay, "info") {
        Severity::Info
    } else {
        Severity::Other
    }
}

/// Tells what a line reports.
pub fn severity(line: &str) -> (r: Severity)
    ensures
        r == line_severity(line@),
{
    classify(line.to_lowercase().as_str())
}

impl LogLines {
    /// No lines.
    pub fn new() -> (r: Self)
        ensures
            r@ == (LogModel { errors: Seq::empty(), warnings: Seq::empty(), info_count: 0 }),
    {
        let r = LogLines { errors: Vec::new(), warnings: Vec::new(), info_count: 0 };
        assert(pairs(r.errors@) =~= Seq::empty());
        assert(pairs(r.warnings@) =~= Seq::empty());
        r
    }

    /// Files a line under what it reports.
    pub fn record(&mut self, severity: Severity, normalized: String, line: &str)
        requires
            severity is Info ==> old(self).info_count < usize::MAX,
        ensures
            final(self)@ == recorded(old(self)@, severity, normalized@, line@),
    {
        match severity {
            Severity::Error => self.errors.push((normalized, line.to_owned())),
            Severity::Warning => self.warnings.push((normalized, line.to_owned())),
            Severity::Info => self.info_count = self.info_count + 1,
            Severity::Other => {},
        }
        assert(self@ =~= recorded(old(self)@, severity, normalized@, line@));
    }
}

/// Reads the lines that matter from a log.
pub fn collect(content: &str) -> (r: LogLines)
    ensures
        r@ == collected(lines_of(content@)),
{
    let patterns = LinePatterns::new();
    let lines = split_lines(content);
    let ghost all = lines_of(content@);
    let mut log = LogLines::new();
    assert(log@ =~= collected(all.take(0)));
    for i in 0..lines.len()
        invariant
            patterns.well_formed(),
            all == texts(lines@),
            log@ == collected(all.take(i as int)),
    {
        let line = lines[i].as_str();
        let normalized = normalize_log_line(
            line,
            &patterns.timestamp,
            &patterns.uuid,
            &patterns.hex,
            &patterns.num,
            &patterns.path,
        );
        proof {
            assert(all[i as int] == line@);
            lemma_collected_push(all.take(i as int), line@);
            assert(all.take(i + 1) =~= all.take(i as int).push(line@));
            all.take(i as int).lemma_filter_len(
                |line: Seq<char>| line_severity(line) == Severity::Info,
            );
        }
        log.record(severity(line), normalized, line);
    }
    assert(all.take(all.len() as int) =~= all);
    log
}

// ---- Lemmas ----

/// Collecting goes line by line.
pub proof fn lemma_collected_push(lines: Seq<Seq<char>>, line: Seq<char>)
    ensures
        collected(lines.push(line)) == recorded(
            collected(lines),
            line_severity(line),
            normalized(line),
            line,
        ),
{
    reveal(Seq::filter);
    assert(lines.push(line).drop_last() =~= lines);
    assert(collected(lines.push(line)) =~= recorded(
        collected(lines),
        line_severity(line),
        normalized(line),
        line,
    ));
}

} // verus!
