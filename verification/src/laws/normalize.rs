//! What normalization promises.

use regex::Regex;
use vstd::prelude::*;

use crate::laws::text::law_trimmed;
use crate::normalize::{
    compiled, matches_in, normalized, normalized_with, replaced, spliced, with_placeholders,
    HEX_PATTERN, NUM_PATTERN, PATH_PATTERN, TIMESTAMP_PATTERN, UUID_PATTERN,
};
use crate::text::{joined, trimmed, white_space};

verus! {

/// A normalized line neither starts nor ends with white space.
pub proof fn law_normalized_line_is_trimmed(line: Seq<char>)
    ensures
        trimmed(normalized(line)) == normalized(line),
        normalized(line).len() > 0 ==> !white_space(normalized(line)[0]) && !white_space(
            normalized(line).last(),
        ),
{
    law_trimmed(
        with_placeholders(
            line,
            compiled(TIMESTAMP_PATTERN@)->Ok_0,
            compiled(UUID_PATTERN@)->Ok_0,
            compiled(HEX_PATTERN@)->Ok_0,
            compiled(NUM_PATTERN@)->Ok_0,
            compiled(PATH_PATTERN@)->Ok_0,
        ),
    );
}

/// A line in which none of the patterns matches is normalized by trimming alone.
pub proof fn law_plain_line_is_only_trimmed(line: Seq<char>)
    requires
        matches_in(compiled(TIMESTAMP_PATTERN@)->Ok_0, line).len() == 0,
        matches_in(compiled(UUID_PATTERN@)->Ok_0, line).len() == 0,
        matches_in(compiled(HEX_PATTERN@)->Ok_0, line).len() == 0,
        matches_in(compiled(NUM_PATTERN@)->Ok_0, line).len() == 0,
        matches_in(compiled(PATH_PATTERN@)->Ok_0, line).len() == 0,
    ensures
        normalized(line) == trimmed(line),
{
    assert(line.skip(0) =~= line);
}

/// Normalizing a line a second time changes nothing more, where none of the patterns matches in
/// what came out the first time.
pub proof fn law_normalizing_twice(line: Seq<char>)
    requires
        matches_in(compiled(TIMESTAMP_PATTERN@)->Ok_0, normalized(line)).len() == 0,
        matches_in(compiled(UUID_PATTERN@)->Ok_0, normalized(line)).len() == 0,
        matches_in(compiled(HEX_PATTERN@)->Ok_0, normalized(line)).len() == 0,
        matches_in(compiled(NUM_PATTERN@)->Ok_0, normalized(line)).len() == 0,
        matches_in(compiled(PATH_PATTERN@)->Ok_0, normalized(line)).len() == 0,
    ensures
        normalized(normalized(line)) == normalized(line),
{
    law_plain_line_is_only_trimmed(normalized(line));
    law_normalized_line_is_trimmed(line);
}

/// A timestamp at the front of a line never shows in its normalized form: lines that are the
/// same after it normalize to the same text. What counts as the timestamp is the one match of
/// its pattern, which starts at the front.
pub proof fn law_timestamp_never_shows(a: Seq<char>, b: Seq<char>, rest: Seq<char>)
    requires
        matches_in(compiled(TIMESTAMP_PATTERN@)->Ok_0, a + rest) == seq![(0int, a.len() as int)],
        matches_in(compiled(TIMESTAMP_PATTERN@)->Ok_0, b + rest) == seq![(0int, b.len() as int)],
    ensures
        normalized(a + rest) == normalized(b + rest),
{
    lemma_timestamp_removed(a, rest);
    lemma_timestamp_removed(b, rest);
}

/// A line with a timestamp at its front normalizes to the same text as what follows the
/// timestamp, where the pattern does not match there again.
pub proof fn law_only_the_leading_timestamp_is_removed(timestamp: Seq<char>, rest: Seq<char>)
    requires
        matches_in(compiled(TIMESTAMP_PATTERN@)->Ok_0, timestamp + rest) == seq![
            (0int, timestamp.len() as int),
        ],
        matches_in(compiled(TIMESTAMP_PATTERN@)->Ok_0, rest).len() == 0,
    ensures
        normalized(timestamp + rest) == normalized(rest),
{
    lemma_timestamp_removed(timestamp, rest);
    assert(rest.skip(0) =~= rest);
}

// ---- What is replaced, and by what ----

/// The pieces of a text that lie between ranges, with that before the first and that after the
/// last.
pub open spec fn between(text: Seq<char>, ranges: Seq<(int, int)>) -> Seq<Seq<char>> {
    Seq::new(
        ranges.len() + 1,
        |k: int|
            text.subrange(
                if k == 0 {
                    0
                } else {
                    ranges[k - 1].1
                },
                if k == ranges.len() {
                    text.len() as int
                } else {
                    ranges[k].0
                },
            ),
    )
}

/// The text with each match of a pattern given up for a placeholder.
pub open spec fn given_up(
    pattern: Seq<char>,
    text: Seq<char>,
    placeholder: Seq<char>,
) -> Seq<char> {
    joined(between(text, matches_in(compiled(pattern)->Ok_0, text)), placeholder)
}

/// A line without its timestamp.
pub open spec fn after_timestamp(line: Seq<char>) -> Seq<char> {
    given_up(r"^\d{4}[-/]\d{2}[-/]\d{2}[T ]\d{2}:\d{2}:\d{2}[.,]?\d*\s*"@, line, ""@)
}

/// A line without its timestamp and UUIDs.
pub open spec fn after_uuids(line: Seq<char>) -> Seq<char> {
    given_up(
        r"[0-9a-fA-F]{8}-[0-9a-fA-F]{4}-[0-9a-fA-F]{4}-[0-9a-fA-F]{4}-[0-9a-fA-F]{12}"@,
        after_timestamp(line),
        "<UUID>"@,
    )
}

/// A line without its timestamp, UUIDs and hexadecimal numbers.
pub open spec fn after_hex(line: Seq<char>) -> Seq<char> {
    given_up(r"0x[0-9a-fA-F]+"@, after_uuids(line), "<HEX>"@)
}

/// A line without its timestamp, UUIDs and numbers.
pub open spec fn after_numbers(line: Seq<char>) -> Seq<char> {
    given_up(r"\b\d{4,}\b"@, after_hex(line), "<NUM>"@)
}

/// A line without all that varies.
pub open spec fn after_paths(line: Seq<char>) -> Seq<char> {
    given_up(r"/[\w./\-]+"@, after_numbers(line), "<PATH>"@)
}

/// Replacing keeps the pieces between the matches and puts the replacement between each and the
/// next.
pub proof fn law_pieces_between_matches_are_kept(
    re: Regex,
    text: Seq<char>,
    replacement: Seq<char>,
)
    ensures
        replaced(re, text, replacement) == joined(
            between(text, matches_in(re, text)),
            replacement,
        ),
{
    lemma_spliced_joins_pieces(text, 0, matches_in(re, text), replacement);
    let ranges = matches_in(re, text);
    assert(pieces_from(text, 0, ranges) =~= between(text, ranges));
}

/// In every line timestamps, UUIDs, hexadecimal numbers, numbers and paths are given up, each kind
/// wherever it is left after those before it, whatever else stands in the line; then the line is
/// trimmed.
pub proof fn law_all_that_varies_is_given_up(line: Seq<char>)
    ensures
        normalized(line) == trimmed(after_paths(line)),
{
    let timestamp = compiled(TIMESTAMP_PATTERN@)->Ok_0;
    let uuid = compiled(UUID_PATTERN@)->Ok_0;
    let hex = compiled(HEX_PATTERN@)->Ok_0;
    let num = compiled(NUM_PATTERN@)->Ok_0;
    let path = compiled(PATH_PATTERN@)->Ok_0;
    law_pieces_between_matches_are_kept(timestamp, line, ""@);
    law_pieces_between_matches_are_kept(uuid, after_timestamp(line), "<UUID>"@);
    law_pieces_between_matches_are_kept(hex, after_uuids(line), "<HEX>"@);
    law_pieces_between_matches_are_kept(num, after_hex(line), "<NUM>"@);
    law_pieces_between_matches_are_kept(path, after_numbers(line), "<PATH>"@);
}

/// Normalizing with other regular expressions goes the same way, step by step.
pub proof fn law_regular_expressions_apply_in_order(
    line: Seq<char>,
    timestamp: Regex,
    uuid: Regex,
    hex: Regex,
    num: Regex,
    path: Regex,
)
    ensures
        ({
            let a = joined(between(line, matches_in(timestamp, line)), ""@);
            let b = joined(between(a, matches_in(uuid, a)), "<UUID>"@);
            let c = joined(between(b, matches_in(hex, b)), "<HEX>"@);
            let d = joined(between(c, matches_in(num, c)), "<NUM>"@);
            let e = joined(between(d, matches_in(path, d)), "<PATH>"@);
            normalized_with(line, timestamp, uuid, hex, num, path) == trimmed(e)
        }),
{
    let a = joined(between(line, matches_in(timestamp, line)), ""@);
    let b = joined(between(a, matches_in(uuid, a)), "<UUID>"@);
    let c = joined(between(b, matches_in(hex, b)), "<HEX>"@);
    let d = joined(between(c, matches_in(num, c)), "<NUM>"@);
    law_pieces_between_matches_are_kept(timestamp, line, ""@);
    law_pieces_between_matches_are_kept(uuid, a, "<UUID>"@);
    law_pieces_between_matches_are_kept(hex, b, "<HEX>"@);
    law_pieces_between_matches_are_kept(num, c, "<NUM>"@);
    law_pieces_between_matches_are_kept(path, d, "<PATH>"@);
}

/// What a path says never shows: where one path is found in a line between `front` and `back`, the
/// line normalizes to these with the placeholder between, whatever else they hold. So lines that
/// differ only in the path normalize to the same text.
pub proof fn law_path_never_shows(
    a: Seq<char>,
    b: Seq<char>,
    front: Seq<char>,
    x: Seq<char>,
    y: Seq<char>,
    back: Seq<char>,
)
    requires
        after_numbers(a) == front + x + back,
        after_numbers(b) == front + y + back,
        matches_in(compiled(r"/[\w./\-]+"@)->Ok_0, front + x + back) == seq![
            (front.len() as int, (front.len() + x.len()) as int),
        ],
        matches_in(compiled(r"/[\w./\-]+"@)->Ok_0, front + y + back) == seq![
            (front.len() as int, (front.len() + y.len()) as int),
        ],
    ensures
        normalized(a) == trimmed(front + "<PATH>"@ + back),
        normalized(a) == normalized(b),
{
    law_all_that_varies_is_given_up(a);
    law_all_that_varies_is_given_up(b);
    lemma_one_match(front, x, back, "<PATH>"@);
    lemma_one_match(front, y, back, "<PATH>"@);
}

/// What a number says never shows.
pub proof fn law_number_never_shows(
    a: Seq<char>,
    b: Seq<char>,
    front: Seq<char>,
    x: Seq<char>,
    y: Seq<char>,
    back: Seq<char>,
)
    requires
        after_hex(a) == front + x + back,
        after_hex(b) == front + y + back,
        matches_in(compiled(r"\b\d{4,}\b"@)->Ok_0, front + x + back) == seq![
            (front.len() as int, (front.len() + x.len()) as int),
        ],
        matches_in(compiled(r"\b\d{4,}\b"@)->Ok_0, front + y + back) == seq![
            (front.len() as int, (front.len() + y.len()) as int),
        ],
    ensures
        after_numbers(a) == front + "<NUM>"@ + back,
        normalized(a) == normalized(b),
{
    lemma_one_match(front, x, back, "<NUM>"@);
    lemma_one_match(front, y, back, "<NUM>"@);
    law_all_that_varies_is_given_up(a);
    law_all_that_varies_is_given_up(b);
}

/// What a hexadecimal number says never shows.
pub proof fn law_hexadecimal_number_never_shows(
    a: Seq<char>,
    b: Seq<char>,
    front: Seq<char>,
    x: Seq<char>,
    y: Seq<char>,
    back: Seq<char>,
)
    requires
        after_uuids(a) == front + x + back,
        after_uuids(b) == front + y + back,
        matches_in(compiled(r"0x[0-9a-fA-F]+"@)->Ok_0, front + x + back) == seq![
            (front.len() as int, (front.len() + x.len()) as int),
        ],
        matches_in(compiled(r"0x[0-9a-fA-F]+"@)->Ok_0, front + y + back) == seq![
            (front.len() as int, (front.len() + y.len()) as int),
        ],
    ensures
        after_hex(a) == front + "<HEX>"@ + back,
        normalized(a) == normalized(b),
{
    lemma_one_match(front, x, back, "<HEX>"@);
    lemma_one_match(front, y, back, "<HEX>"@);
    law_all_that_varies_is_given_up(a);
    law_all_that_varies_is_given_up(b);
}

/// What a UUID says never shows.
pub proof fn law_uuid_never_shows(
    a: Seq<char>,
    b: Seq<char>,
    front: Seq<char>,
    x: Seq<char>,
    y: Seq<char>,
    back: Seq<char>,
)
    requires
        after_timestamp(a) == front + x + back,
        after_timestamp(b) == front + y + back,
        matches_in(
            compiled(
                r"[0-9a-fA-F]{8}-[0-9a-fA-F]{4}-[0-9a-fA-F]{4}-[0-9a-fA-F]{4}-[0-9a-fA-F]{12}"@,
            )->Ok_0,
            front + x + back,
        ) == seq![(front.len() as int, (front.len() + x.len()) as int)],
        matches_in(
            compiled(
                r"[0-9a-fA-F]{8}-[0-9a-fA-F]{4}-[0-9a-fA-F]{4}-[0-9a-fA-F]{4}-[0-9a-fA-F]{12}"@,
            )->Ok_0,
            front + y + back,
        ) == seq![(front.len() as int, (front.len() + y.len()) as int)],
    ensures
        after_uuids(a) == front + "<UUID>"@ + back,
        normalized(a) == normalized(b),
{
    lemma_one_match(front, x, back, "<UUID>"@);
    lemma_one_match(front, y, back, "<UUID>"@);
    law_all_that_varies_is_given_up(a);
    law_all_that_varies_is_given_up(b);
}

// ---- Lemmas ----

/// The pieces between ranges, from position `from` on.
spec fn pieces_from(text: Seq<char>, from: int, ranges: Seq<(int, int)>) -> Seq<Seq<char>> {
    Seq::new(
        ranges.len() + 1,
        |k: int|
            text.subrange(
                if k == 0 {
                    from
                } else {
                    ranges[k - 1].1
                },
                if k == ranges.len() {
                    text.len() as int
                } else {
                    ranges[k].0
                },
            ),
    )
}

proof fn lemma_spliced_joins_pieces(
    text: Seq<char>,
    from: int,
    ranges: Seq<(int, int)>,
    replacement: Seq<char>,
)
    ensures
        spliced(text, from, ranges, replacement) == joined(
            pieces_from(text, from, ranges),
            replacement,
        ),
    decreases ranges.len(),
{
    let pieces = pieces_from(text, from, ranges);
    if ranges.len() > 0 {
        lemma_spliced_joins_pieces(text, ranges[0].1, ranges.skip(1), replacement);
        assert(pieces.skip(1) =~= pieces_from(text, ranges[0].1, ranges.skip(1)));
    }
}

/// With one range, a text is what stands before it, the replacement and what stands after it.
proof fn lemma_one_match(front: Seq<char>, x: Seq<char>, back: Seq<char>, replacement: Seq<char>)
    ensures
        joined(
            between(
                front + x + back,
                seq![(front.len() as int, (front.len() + x.len()) as int)],
            ),
            replacement,
        ) == front + replacement + back,
{
    let text = front + x + back;
    let pieces = between(text, seq![(front.len() as int, (front.len() + x.len()) as int)]);
    assert(pieces[0] =~= front);
    assert(pieces[1] =~= back);
    assert(pieces.skip(1).len() == 1);
    assert(joined(pieces.skip(1), replacement) == pieces.skip(1)[0]);
}

/// A line with a timestamp at its front goes on as what follows the timestamp.
proof fn lemma_timestamp_removed(timestamp: Seq<char>, rest: Seq<char>)
    requires
        matches_in(compiled(TIMESTAMP_PATTERN@)->Ok_0, timestamp + rest) == seq![
            (0int, timestamp.len() as int),
        ],
    ensures
        replaced(compiled(TIMESTAMP_PATTERN@)->Ok_0, timestamp + rest, ""@) == rest,
{
    let line = timestamp + rest;
    let ranges = seq![(0int, timestamp.len() as int)];
    reveal_strlit("");
    reveal_with_fuel(spliced, 2);
    assert(ranges.skip(1).len() == 0);
    assert(spliced(line, timestamp.len() as int, ranges.skip(1), ""@) == line.skip(
        timestamp.len() as int,
    ));
    assert(line.subrange(0, 0) + ""@ + line.skip(timestamp.len() as int) =~= rest);
}

} // verus!
