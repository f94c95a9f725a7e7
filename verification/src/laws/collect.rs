//! What lines report, and how a further line changes what is collected.

use vstd::prelude::*;
use vstd::utf8::is_ascii_chars;

use crate::collect::{
    ascii_lowercase, collected, keys, lemma_collected_push, line_severity, lowercase, recorded,
    severity_of, LogModel, Severity,
};
use crate::laws::primitives::{
    law_occurs_between, law_occurs_where_characters_stand, law_text_without_line_feed_is_one_line,
    stands_at,
};
use crate::laws::text::law_lines_of_joined_texts;
use crate::normalize::normalized;
use crate::text::lines_of;

verus! {

/// `word`, which is in small letters, is spelled out in `line` from position `at` on, in small
/// letters or capitals.
pub open spec fn spells(line: Seq<char>, word: Seq<char>, at: int) -> bool {
    &&& 0 <= at <= line.len() - word.len()
    &&& forall|i: int|
        0 <= i < word.len() ==> line[at + i] == #[trigger] word[i] || ('A' <= line[at + i] <= 'Z'
            && line[at + i] as int + 32 == word[i] as int)
}

/// A line in lower case reports an error where "error", "fatal" or "panic" stands in it, at
/// whatever position; else a warning where "warn" does; else info where "info" does.
pub proof fn law_severity_by_words(lower: Seq<char>)
    ensures
        ({
            let holds = |word: Seq<char>| exists|at: int| stands_at(lower, word, at);
            let alarming = holds("error"@) || holds("fatal"@) || holds("panic"@);
            &&& severity_of(lower) is Error <==> alarming
            &&& severity_of(lower) is Warning <==> !alarming && holds("warn"@)
            &&& severity_of(lower) is Info <==> !alarming && !holds("warn"@) && holds("info"@)
        }),
{
    law_occurs_where_characters_stand("error"@, lower);
    law_occurs_where_characters_stand("fatal"@, lower);
    law_occurs_where_characters_stand("panic"@, lower);
    law_occurs_where_characters_stand("warn"@, lower);
    law_occurs_where_characters_stand("info"@, lower);
}

/// In lower case, "error", "fatal" and "panic" report an error whatever stands before and after.
pub proof fn law_alarm_in_lower_case_reports_error(before: Seq<char>, after: Seq<char>)
    ensures
        severity_of(before + "error"@ + after) is Error,
        severity_of(before + "fatal"@ + after) is Error,
        severity_of(before + "panic"@ + after) is Error,
{
    law_occurs_between(before, "error"@, after);
    law_occurs_between(before, "fatal"@, after);
    law_occurs_between(before, "panic"@, after);
}

/// A line of ASCII characters reports by the words spelled out in it, at whatever position and in
/// whatever case.
pub proof fn law_ascii_severity_by_words(line: Seq<char>)
    requires
        is_ascii_chars(line),
    ensures
        ({
            let holds = |word: Seq<char>| exists|at: int| spells(line, word, at);
            let alarming = holds("error"@) || holds("fatal"@) || holds("panic"@);
            &&& line_severity(line) is Error <==> alarming
            &&& line_severity(line) is Warning <==> !alarming && holds("warn"@)
            &&& line_severity(line) is Info <==> !alarming && !holds("warn"@) && holds("info"@)
        }),
{
    reveal_strlit("error");
    reveal_strlit("fatal");
    reveal_strlit("panic");
    reveal_strlit("warn");
    reveal_strlit("info");
    law_severity_by_words(ascii_lowercase(line));
    lemma_spells(line, "error"@);
    lemma_spells(line, "fatal"@);
    lemma_spells(line, "panic"@);
    lemma_spells(line, "warn"@);
    lemma_spells(line, "info"@);
}

/// A line with other characters reports by the words in its lower case.
pub proof fn law_other_severity_by_words(line: Seq<char>)
    requires
        !is_ascii_chars(line),
    ensures
        line_severity(line) == severity_of(lowercase(line)),
{
}

/// Whatever stands before and after it, "error", "fatal" or "panic" in any case makes a line of
/// ASCII characters report an error.
pub proof fn law_alarm_anywhere_reports_error(before: Seq<char>, word: Seq<char>, after: Seq<char>)
    requires
        is_ascii_chars(before + word + after),
        word.len() == 5,
        spells(word, "error"@, 0) || spells(word, "fatal"@, 0) || spells(word, "panic"@, 0),
    ensures
        line_severity(before + word + after) is Error,
{
    let line = before + word + after;
    let at = before.len() as int;
    reveal_strlit("error");
    reveal_strlit("fatal");
    reveal_strlit("panic");
    assert forall|i: int| 0 <= i < 5 implies line[at + i] == #[trigger] word[0 + i] by {}
    law_ascii_severity_by_words(line);
    if spells(word, "error"@, 0) {
        assert forall|i: int| 0 <= i < 5 implies line[at + i] == #[trigger] "error"@[i] || ('A'
            <= line[at + i] <= 'Z' && line[at + i] as int + 32 == "error"@[i] as int) by {
            assert(word[0 + i] == line[at + i]);
        }
        assert(spells(line, "error"@, at));
    } else if spells(word, "fatal"@, 0) {
        assert forall|i: int| 0 <= i < 5 implies line[at + i] == #[trigger] "fatal"@[i] || ('A'
            <= line[at + i] <= 'Z' && line[at + i] as int + 32 == "fatal"@[i] as int) by {
            assert(word[0 + i] == line[at + i]);
        }
        assert(spells(line, "fatal"@, at));
    } else {
        assert forall|i: int| 0 <= i < 5 implies line[at + i] == #[trigger] "panic"@[i] || ('A'
            <= line[at + i] <= 'Z' && line[at + i] as int + 32 == "panic"@[i] as int) by {
            assert(word[0 + i] == line[at + i]);
        }
        assert(spells(line, "panic"@, at));
    }
}

/// In particular these words themselves do, between any ASCII characters.
pub proof fn law_alarm_word_reports_error(before: Seq<char>, after: Seq<char>)
    requires
        is_ascii_chars(before),
        is_ascii_chars(after),
    ensures
        line_severity(before + "error"@ + after) is Error,
        line_severity(before + "fatal"@ + after) is Error,
        line_severity(before + "panic"@ + after) is Error,
{
    reveal_strlit("error");
    reveal_strlit("fatal");
    reveal_strlit("panic");
    law_alarm_anywhere_reports_error(before, "error"@, after);
    law_alarm_anywhere_reports_error(before, "fatal"@, after);
    law_alarm_anywhere_reports_error(before, "panic"@, after);
}

/// A further line is filed under what it reports, at the end and with its normalized form, and
/// what was collected before stays as it is.
pub proof fn law_next_line_is_filed(lines: Seq<Seq<char>>, line: Seq<char>)
    ensures
        ({
            let (before, after) = (collected(lines), collected(lines.push(line)));
            let severity = line_severity(line);
            let entry = (normalized(line), line);
            &&& after.errors == if severity is Error {
                before.errors.push(entry)
            } else {
                before.errors
            }
            &&& after.warnings == if severity is Warning {
                before.warnings.push(entry)
            } else {
                before.warnings
            }
            &&& after.info_count == if severity is Info {
                before.info_count + 1
            } else {
                before.info_count
            }
        }),
        collected(Seq::empty()).errors.len() == 0,
        collected(Seq::empty()).warnings.len() == 0,
        collected(Seq::empty()).info_count == 0,
{
    lemma_collected_push(lines, line);
    reveal(Seq::filter);
}

/// Recording a line files it in the same way.
pub proof fn law_recording_files_line(
    log: LogModel,
    severity: Severity,
    text: Seq<char>,
    line: Seq<char>,
)
    ensures
        ({
            let after = recorded(log, severity, text, line);
            &&& after.errors == if severity is Error {
                log.errors.push((text, line))
            } else {
                log.errors
            }
            &&& after.warnings == if severity is Warning {
                log.warnings.push((text, line))
            } else {
                log.warnings
            }
            &&& after.info_count == if severity is Info {
                log.info_count + 1
            } else {
                log.info_count
            }
        }),
{
}

/// The keys of lines are their normalized forms, one for one.
pub proof fn law_keys(lines: Seq<(Seq<char>, Seq<char>)>, i: int)
    ensures
        keys(lines).len() == lines.len(),
        0 <= i < lines.len() ==> keys(lines)[i] == lines[i].0,
{
}

/// The last line of a log, however long the log is, is filed under what it reports.
pub proof fn law_last_line_is_filed(content: Seq<char>, line: Seq<char>)
    requires
        line.len() > 0,
        !line.contains('\n'),
    ensures
        ({
            let before = collected(lines_of(content.push('\n')));
            let after = collected(lines_of(content.push('\n') + line));
            let entry = (normalized(line), line);
            match line_severity(line) {
                Severity::Error => {
                    &&& after.errors == before.errors.push(entry)
                    &&& after.warnings == before.warnings
                    &&& after.info_count == before.info_count
                },
                Severity::Warning => {
                    &&& after.errors == before.errors
                    &&& after.warnings == before.warnings.push(entry)
                    &&& after.info_count == before.info_count
                },
                Severity::Info => {
                    &&& after.errors == before.errors
                    &&& after.warnings == before.warnings
                    &&& after.info_count == before.info_count + 1
                },
                Severity::Other => after == before,
            }
        }),
{
    law_lines_of_joined_texts(content, line);
    law_text_without_line_feed_is_one_line(line);
    let before = lines_of(content.push('\n'));
    assert(before + seq![line] =~= before.push(line));
    law_next_line_is_filed(before, line);
}

/// In small letters, a text of ASCII characters holds a word where it spells it.
proof fn lemma_spells(line: Seq<char>, word: Seq<char>)
    requires
        is_ascii_chars(line),
        forall|i: int| 0 <= i < word.len() ==> 'a' <= #[trigger] word[i] <= 'z',
    ensures
        (exists|at: int| stands_at(ascii_lowercase(line), word, at)) <==> (exists|at: int|
            spells(line, word, at)),
{
    let lower = ascii_lowercase(line);
    assert forall|at: int| stands_at(lower, word, at) == spells(line, word, at) by {
        if stands_at(lower, word, at) {
            assert forall|i: int| 0 <= i < word.len() implies line[at + i] == #[trigger] word[i]
                || ('A' <= line[at + i] <= 'Z' && line[at + i] as int + 32 == word[i] as int) by {
                assert(lower[at + i] == word[i]);
            }
        }
        if spells(line, word, at) {
            assert forall|i: int| 0 <= i < word.len() implies lower[at + i]
                == #[trigger] word[i] by {
                let c = line[at + i];
                assert(c == word[i] || ('A' <= c <= 'Z' && c as int + 32 == word[i] as int));
            }
        }
    }
    if exists|at: int| stands_at(lower, word, at) {
        let at = choose|at: int| stands_at(lower, word, at);
        assert(spells(line, word, at));
    }
    if exists|at: int| spells(line, word, at) {
        let at = choose|at: int| spells(line, word, at);
        assert(stands_at(lower, word, at));
    }
}

} // verus!
