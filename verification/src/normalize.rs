//! Line normalization: the parts of a log line that vary from one occurrence to the next are
//! removed or replaced by a placeholder.

use regex::Regex;
use vstd::prelude::*;

use crate::text::{trim, trimmed};

verus! {

/// A date and a time of day at the start of a line, with the white space after it.
pub const TIMESTAMP_PATTERN: &'static str =
    r"^\d{4}[-/]\d{2}[-/]\d{2}[T ]\d{2}:\d{2}:\d{2}[.,]?\d*\s*";

/// A UUID in its hyphenated form.
pub const UUID_PATTERN: &'static str =
    r"[0-9a-fA-F]{8}-[0-9a-fA-F]{4}-[0-9a-fA-F]{4}-[0-9a-fA-F]{4}-[0-9a-fA-F]{12}";

/// A hexadecimal number with its prefix.
pub const HEX_PATTERN: &'static str = r"0x[0-9a-fA-F]+";

/// A number of four digits or more that is a word of its own.
pub const NUM_PATTERN: &'static str = r"\b\d{4,}\b";

/// An absolute path.
pub const PATH_PATTERN: &'static str = r"/[\w./\-]+";

/// The regular expressions that normalization uses.
pub struct LinePatterns {
    pub timestamp: Regex,
    pub uuid: Regex,
    pub hex: Regex,
    pub num: Regex,
    pub path: Regex,
}

// ---- Meaning ----

/// `pattern` is one of the patterns that normalization uses.
pub open spec fn is_line_pattern(pattern: Seq<char>) -> bool {
    ||| pattern == TIMESTAMP_PATTERN@
    ||| pattern == UUID_PATTERN@
    ||| pattern == HEX_PATTERN@
    ||| pattern == NUM_PATTERN@
    ||| pattern == PATH_PATTERN@
}

/// What `Regex::new` makes of a pattern.
pub uninterp spec fn compiled(pattern: Seq<char>) -> Result<Regex, regex::Error>;

/// Where a regular expression matches in a text: the successive matches, which do not overlap,
/// that `Regex::find_iter` yields, each from its first character to that after its last.
pub uninterp spec fn matches_in(re: Regex, text: Seq<char>) -> Seq<(int, int)>;

/// The text from position `from` on, with the replacement in place of each range.
pub open spec fn spliced(
    text: Seq<char>,
    from: int,
    ranges: Seq<(int, int)>,
    replacement: Seq<char>,
) -> Seq<char>
    decreases ranges.len(),
{
    if ranges.len() == 0 {
        text.skip(from)
    } else {
        text.subrange(from, ranges[0].0) + replacement + spliced(
            text,
            ranges[0].1,
            ranges.skip(1),
            replacement,
        )
    }
}

/// The text, with the replacement in place of each match.
pub open spec fn replaced(re: Regex, text: Seq<char>, replacement: Seq<char>) -> Seq<char> {
    spliced(text, 0, matches_in(re, text), replacement)
}

/// The line without its timestamp, and with placeholders for UUIDs, hexadecimal numbers, numbers
/// and paths, which are looked for in this order.
pub open spec fn with_placeholders(
    line: Seq<char>,
    timestamp: Regex,
    uuid: Regex,
    hex: Regex,
    num: Regex,
    path: Regex,
) -> Seq<char> {
    let no_timestamp = replaced(timestamp, line, ""@);
    let no_uuid = replaced(uuid, no_timestamp, "<UUID>"@);
    let no_hex = replaced(hex, no_uuid, "<HEX>"@);
    let no_num = replaced(num, no_hex, "<NUM>"@);
    replaced(path, no_num, "<PATH>"@)
}

/// The line, normalized with the given regular expressions: with placeholders, and without
/// white space around it.
pub open spec fn normalized_with(
    line: Seq<char>,
    timestamp: Regex,
    uuid: Regex,
    hex: Regex,
    num: Regex,
    path: Regex,
) -> Seq<char> {
    trimmed(with_placeholders(line, timestamp, uuid, hex, num, path))
}

/// The normalized line.
pub open spec fn normalized(line: Seq<char>) -> Seq<char> {
    normalized_with(
        line,
        compiled(TIMESTAMP_PATTERN@)->Ok_0,
        compiled(UUID_PATTERN@)->Ok_0,
        compiled(HEX_PATTERN@)->Ok_0,
        compiled(NUM_PATTERN@)->Ok_0,
        compiled(PATH_PATTERN@)->Ok_0,
    )
}

impl LinePatterns {
    /// Each regular expression is the one that its pattern compiles to.
    pub open spec fn well_formed(&self) -> bool {
        &&& self.timestamp == compiled(TIMESTAMP_PATTERN@)->Ok_0
        &&& self.uuid == compiled(UUID_PATTERN@)->Ok_0
        &&& self.hex == compiled(HEX_PATTERN@)->Ok_0
        &&& self.num == compiled(NUM_PATTERN@)->Ok_0
        &&& self.path == compiled(PATH_PATTERN@)->Ok_0
    }
}

// ---- Outside functions ----

/// A compiled regular expression.
#[verifier::external_type_specification]
#[verifier::external_body]
pub struct ExRegex(regex::Regex);

/// Why a pattern did not compile.
#[verifier::external_type_specification]
#[verifier::external_body]
pub struct ExRegexError(regex::Error);

/// `Regex::new` compiles a pattern. Each pattern of this module is valid syntax and far below
/// the size limit, so that it compiles; what it compiles to depends on the pattern alone.
#[verifier::external_body]
fn compile(pattern: &str) -> (r: Result<Regex, regex::Error>)
    requires
        is_line_pattern(pattern@),
    ensures
        r == compiled(pattern@),
        r is Ok,
{
    Regex::new(pattern)
}

/// `Regex::replace_all` puts the replacement in place of each match that `Regex::find_iter`
/// yields. In a replacement with a dollar sign, references to capture groups would be expanded;
/// one without is taken as it stands.
#[verifier::external_body]
fn replace_all(re: &Regex, text: &str, replacement: &str) -> (r: String)
    requires
        !replacement@.contains('$'),
    ensures
        r@ == spliced(text@, 0, matches_in(*re, text@), replacement@),
{
    re.replace_all(text, replacement).into_owned()
}

// ---- Functions ----

impl LinePatterns {
    /// Compiles the patterns.
    pub fn new() -> (r: Self)
        ensures
            r.well_formed(),
    {
        LinePatterns {
            timestamp: compile(TIMESTAMP_PATTERN).unwrap(),
            uuid: compile(UUID_PATTERN).unwrap(),
            hex: compile(HEX_PATTERN).unwrap(),
            num: compile(NUM_PATTERN).unwrap(),
            path: compile(PATH_PATTERN).unwrap(),
        }
    }
}

/// Normalizes a log line with the given regular expressions.
pub fn normalize_log_line(
    line: &str,
    timestamp_re: &Regex,
    uuid_re: &Regex,
    hex_re: &Regex,
    num_re: &Regex,
    path_re: &Regex,
) -> (r: String)
    ensures
        r@ == normalized_with(line@, *timestamp_re, *uuid_re, *hex_re, *num_re, *path_re),
{
    proof {
        reveal_strlit("");
        reveal_strlit("<UUID>");
        reveal_strlit("<HEX>");
        reveal_strlit("<NUM>");
        reveal_strlit("<PATH>");
    }
    let mut normalized = replace_all(timestamp_re, line, "");
    normalized = replace_all(uuid_re, normalized.as_str(), "<UUID>");
    normalized = replace_all(hex_re, normalized.as_str(), "<HEX>");
    normalized = replace_all(num_re, normalized.as_str(), "<NUM>");
    normalized = replace_all(path_re, normalized.as_str(), "<PATH>");
    trim(normalized.as_str())
}

} // verus!
