//! What a report shows, line by line and character by character.

use vstd::prelude::*;
use vstd::utf8::encode_utf8;

use crate::collect::{collected, keys, LogModel};
use crate::laws::primitives::{law_decimal_reads_back, number_of};
use crate::log_cmd::{exact_clusters, exact_report, sketched_report};
use crate::rank::ranked;
use crate::report::{
    cluster_line, cluster_lines, more_line, report, report_lines, section, shortened,
};
use crate::sketch::sketched_clusters;
use crate::text::{decimal, joined, lines_of};

verus! {

// ---- Lines ----

/// A line of up to 100 bytes is shown as it is. Of a longer one, the first 97 characters are
/// shown, or all where there are fewer, and three dots.
pub proof fn law_shown_line(line: Seq<char>)
    ensures
        encode_utf8(line).len() <= 100 ==> shortened(line) == line,
        encode_utf8(line).len() > 100 ==> {
            let kept = if line.len() < 97 {
                line.len() as int
            } else {
                97
            };
            &&& shortened(line).len() == kept + 3
            &&& forall|i: int| 0 <= i < kept ==> #[trigger] shortened(line)[i] == line[i]
            &&& forall|i: int| kept <= i < kept + 3 ==> #[trigger] shortened(line)[i] == '.'
        },
{
    reveal_strlit("...");
}

/// A line is shown from its start: each of its first 97 characters is shown in its place.
pub proof fn law_line_is_shown_from_its_start(line: Seq<char>, i: int)
    requires
        0 <= i < 97,
        i < line.len(),
    ensures
        i < shortened(line).len(),
        shortened(line)[i] == line[i],
{
}

/// Lines that share their first 97 characters, and take more than 100 bytes, are shown alike;
/// lines that differ there are not.
pub proof fn law_first_characters_tell_long_lines_apart(a: Seq<char>, b: Seq<char>)
    requires
        encode_utf8(a).len() > 100,
        encode_utf8(b).len() > 100,
        a.len() >= 97,
        b.len() >= 97,
    ensures
        shortened(a) == shortened(b) <==> a.take(97) == b.take(97),
{
    if shortened(a) == shortened(b) {
        assert forall|i: int| 0 <= i < 97 implies a.take(97)[i] == b.take(97)[i] by {
            law_line_is_shown_from_its_start(a, i);
            law_line_is_shown_from_its_start(b, i);
        }
        assert(a.take(97) =~= b.take(97));
    }
}

/// Between the brackets before a line stands its count, in digits that read back as the count,
/// however large; a line that counts once stands without brackets.
pub proof fn law_count_reads_back(line: Seq<char>, count: int) -> (digits: Seq<char>)
    ensures
        count > 1 ==> {
            &&& cluster_line(line, count) == "   [×"@ + digits + "] "@ + shortened(line)
            &&& number_of(digits) == count
            &&& digits.len() > 0
            &&& digits[0] != '0'
            &&& forall|i: int| 0 <= i < digits.len() ==> '0' <= #[trigger] digits[i] <= '9'
        },
        count <= 1 ==> cluster_line(line, count) == "   "@ + shortened(line),
{
    if count > 1 {
        law_decimal_reads_back(count as nat);
        let digits = decimal(count as nat);
        if digits[0] == '0' {
            assert(digits.drop_last().len() == 0);
            assert(number_of(digits.drop_last()) == 0);
        }
        digits
    } else {
        Seq::empty()
    }
}

/// Different counts show: whatever their lines, two clusters with different counts above one are
/// shown differently.
pub proof fn law_different_counts_show(x: Seq<char>, y: Seq<char>, a: int, b: int)
    requires
        a > 1,
        b > 1,
        a != b,
    ensures
        cluster_line(x, a) != cluster_line(y, b),
{
    let d = law_count_reads_back(x, a);
    let e = law_count_reads_back(y, b);
    reveal_strlit("   [×");
    reveal_strlit("] ");
    let (s, t) = (cluster_line(x, a), cluster_line(y, b));
    let (n, m) = (d.len() as int, e.len() as int);
    if s == t {
        assert(s[5 + n] == ']');
        assert(t[5 + m] == ']');
        if n < m {
            assert(t[5 + n] == e[n]);
        }
        if m < n {
            assert(s[5 + m] == d[m]);
        }
        assert forall|i: int| 0 <= i < d.len() implies d[i] == e[i] by {
            assert(s[5 + i] == d[i]);
            assert(t[5 + i] == e[i]);
        }
        assert(d =~= e);
    }
}

/// Lines that are shown differently make clusters of one count show differently.
pub proof fn law_different_lines_show(x: Seq<char>, y: Seq<char>, count: int)
    ensures
        cluster_line(x, count) == cluster_line(y, count) <==> shortened(x) == shortened(y),
{
    let d = law_count_reads_back(x, count);
    let (s, t) = (cluster_line(x, count), cluster_line(y, count));
    let n = s.len() - shortened(x).len();
    assert(s.skip(n) =~= shortened(x));
    assert(t.skip(t.len() - shortened(y).len()) =~= shortened(y));
}

// ---- Sections ----

/// Up to the limit, each cluster is shown by the line that is its exemplar and by its count, in
/// the order of the clusters.
pub proof fn law_shown_clusters(
    lines: Seq<(Seq<char>, Seq<char>)>,
    clusters: Seq<(int, int)>,
    limit: int,
)
    requires
        limit >= 0,
    ensures
        cluster_lines(lines, clusters, limit).len() == if clusters.len() < limit {
            clusters.len() as int
        } else {
            limit
        },
        forall|k: int|
            0 <= k < clusters.len() && k < limit ==> #[trigger] cluster_lines(
                lines,
                clusters,
                limit,
            )[k] == cluster_line(lines[clusters[k].0].1, clusters[k].1),
{
}

/// Where clusters are left over, one line tells how many, in digits that read back as the number.
pub proof fn law_number_of_further_clusters(clusters: nat, limit: int, what: Seq<char>) -> (digits:
    Seq<char>)
    requires
        limit >= 0,
    ensures
        clusters <= limit ==> more_line(clusters, limit, what).len() == 0,
        clusters > limit ==> {
            &&& more_line(clusters, limit, what) == seq![
                "   ... +"@ + digits + " more unique "@ + what,
            ]
            &&& number_of(digits) == clusters - limit
            &&& forall|i: int| 0 <= i < digits.len() ==> '0' <= #[trigger] digits[i] <= '9'
        },
{
    if clusters > limit {
        law_decimal_reads_back((clusters - limit) as nat);
        decimal((clusters - limit) as nat)
    } else {
        Seq::empty()
    }
}

/// A section is its title, the clusters shown and what is said of those left over; without
/// clusters there is nothing.
pub proof fn law_section_layout(
    title: Seq<char>,
    lines: Seq<(Seq<char>, Seq<char>)>,
    clusters: Seq<(int, int)>,
    limit: int,
    what: Seq<char>,
)
    requires
        limit >= 0,
    ensures
        ({
            let rows = section(title, lines, clusters, limit, what);
            let n = clusters.len() as int;
            &&& n == 0 ==> rows.len() == 0
            &&& n > 0 ==> rows[0] == title
            &&& 0 < n <= limit ==> rows.len() == n + 1
            &&& n > limit ==> rows.len() == limit + 2
            &&& n > limit ==> more_line(clusters.len(), limit, what) == seq![rows[limit + 1]]
            &&& forall|k: int|
                0 <= k < n && k < limit ==> rows[1 + k] == cluster_line(
                    lines[(#[trigger] clusters[k]).0].1,
                    clusters[k].1,
                )
        }),
{
    let rows = section(title, lines, clusters, limit, what);
    law_number_of_further_clusters(clusters.len(), limit, what);
    if clusters.len() > limit {
        assert(more_line(clusters.len(), limit, what) =~= seq![rows[limit + 1]]);
    }
    assert forall|k: int| 0 <= k < clusters.len() && k < limit implies rows[1 + k]
        == cluster_line(lines[(#[trigger] clusters[k]).0].1, clusters[k].1) by {
        law_shown_clusters(lines, clusters, limit);
        assert(rows[1 + k] == cluster_lines(lines, clusters, limit)[k]);
    }
}

// ---- Reports ----

/// `row` tells the numbers `all` and `unique` between the given texts, in decimal digits.
pub open spec fn tells_numbers(
    row: Seq<char>,
    before: Seq<char>,
    all: nat,
    between: Seq<char>,
    unique: nat,
    after: Seq<char>,
) -> bool {
    exists|a: Seq<char>, u: Seq<char>| #[trigger]
        is_decimal(a, all) && #[trigger] is_decimal(u, unique) && row == before + a + between + u
            + after
}

/// `row` tells a number between the given texts, in decimal digits.
pub open spec fn tells_number(
    row: Seq<char>,
    before: Seq<char>,
    number: nat,
    after: Seq<char>,
) -> bool {
    exists|digits: Seq<char>| #[trigger]
        is_decimal(digits, number) && row == before + digits + after
}

/// The digits, without needless zeros in front, read as the number.
pub open spec fn is_decimal(digits: Seq<char>, number: nat) -> bool {
    &&& number_of(digits) == number
    &&& digits.len() > 0
    &&& digits[0] == '0' ==> digits.len() == 1
    &&& forall|i: int| 0 <= i < digits.len() ==> '0' <= #[trigger] digits[i] <= '9'
}

/// The number of lines that the section on errors takes, with the empty line after it.
pub open spec fn error_rows(clusters: nat) -> nat {
    if clusters == 0 {
        0
    } else if clusters <= 10 {
        clusters + 2
    } else {
        13
    }
}

/// The number of lines that the section on warnings takes.
pub open spec fn warning_rows(clusters: nat) -> nat {
    if clusters == 0 {
        0
    } else if clusters <= 5 {
        clusters + 1
    } else {
        7
    }
}

/// The report starts with five lines: a title, the number of errors and of warnings, each with
/// the number of its clusters, the number of info messages, and an empty line. The sections
/// follow.
pub proof fn law_report_summary(
    log: LogModel,
    errors: Seq<(int, int)>,
    warnings: Seq<(int, int)>,
)
    ensures
        ({
            let rows = report_lines(log, errors, warnings);
            &&& report(log, errors, warnings) == joined(rows, "\n"@)
            &&& rows.len() == 5 + error_rows(errors.len()) + warning_rows(warnings.len())
            &&& rows[0] == "Log Summary"@
            &&& tells_numbers(
                rows[1],
                "   [error] "@,
                log.errors.len(),
                " errors ("@,
                errors.len(),
                " unique)"@,
            )
            &&& tells_numbers(
                rows[2],
                "   [warn] "@,
                log.warnings.len(),
                " warnings ("@,
                warnings.len(),
                " unique)"@,
            )
            &&& tells_number(rows[3], "   [info] "@, log.info_count, " info messages"@)
            &&& rows[4].len() == 0
        }),
{
    law_decimal_reads_back(log.errors.len());
    law_decimal_reads_back(log.warnings.len());
    law_decimal_reads_back(log.info_count);
    law_decimal_reads_back(errors.len());
    law_decimal_reads_back(warnings.len());
    law_section_layout("[ERRORS]"@, log.errors, errors, 10, "errors"@);
    law_section_layout("[WARNINGS]"@, log.warnings, warnings, 5, "warnings"@);
    assert(is_decimal(decimal(log.errors.len()), log.errors.len()));
    assert(is_decimal(decimal(log.warnings.len()), log.warnings.len()));
    assert(is_decimal(decimal(log.info_count), log.info_count));
    assert(is_decimal(decimal(errors.len()), errors.len()));
    assert(is_decimal(decimal(warnings.len()), warnings.len()));
}

/// The errors follow the summary: a title, the first ten clusters, the number of those left over
/// where there are any, and an empty line.
pub proof fn law_report_errors(
    log: LogModel,
    errors: Seq<(int, int)>,
    warnings: Seq<(int, int)>,
)
    requires
        errors.len() > 0,
    ensures
        ({
            let rows = report_lines(log, errors, warnings);
            &&& rows[5] == "[ERRORS]"@
            &&& forall|k: int|
                0 <= k < errors.len() && k < 10 ==> rows[6 + k] == cluster_line(
                    log.errors[(#[trigger] errors[k]).0].1,
                    errors[k].1,
                )
            &&& errors.len() > 10 ==> tells_number(
                rows[16],
                "   ... +"@,
                (errors.len() - 10) as nat,
                " more unique errors"@,
            )
            &&& rows[4 + error_rows(errors.len()) as int].len() == 0
        }),
{
    let rows = report_lines(log, errors, warnings);
    let part = section("[ERRORS]"@, log.errors, errors, 10, "errors"@);
    law_section_layout("[ERRORS]"@, log.errors, errors, 10, "errors"@);
    assert(rows[5] == part[0]);
    assert forall|k: int| 0 <= k < errors.len() && k < 10 implies rows[6 + k] == cluster_line(
        log.errors[(#[trigger] errors[k]).0].1,
        errors[k].1,
    ) by {
        assert(rows[6 + k] == part[1 + k]);
    }
    if errors.len() > 10 {
        assert(rows[16] == part[11]);
        reveal_strlit(" more unique ");
        reveal_strlit(" more unique errors");
        reveal_strlit("errors");
        assert(" more unique errors"@ =~= " more unique "@ + "errors"@);
        lemma_more(errors.len(), 10, "errors"@, " more unique errors"@, rows[16]);
    }
}

/// The warnings come last: a title, the first five clusters, and the number of those left over
/// where there are any.
pub proof fn law_report_warnings(
    log: LogModel,
    errors: Seq<(int, int)>,
    warnings: Seq<(int, int)>,
)
    requires
        warnings.len() > 0,
    ensures
        ({
            let rows = report_lines(log, errors, warnings);
            let start = 5 + error_rows(errors.len()) as int;
            &&& rows[start] == "[WARNINGS]"@
            &&& forall|k: int|
                0 <= k < warnings.len() && k < 5 ==> rows[start + 1 + k] == cluster_line(
                    log.warnings[(#[trigger] warnings[k]).0].1,
                    warnings[k].1,
                )
            &&& warnings.len() > 5 ==> tells_number(
                rows[start + 6],
                "   ... +"@,
                (warnings.len() - 5) as nat,
                " more unique warnings"@,
            )
        }),
{
    let rows = report_lines(log, errors, warnings);
    let start = 5 + error_rows(errors.len()) as int;
    let part = section("[WARNINGS]"@, log.warnings, warnings, 5, "warnings"@);
    law_section_layout("[ERRORS]"@, log.errors, errors, 10, "errors"@);
    law_section_layout("[WARNINGS]"@, log.warnings, warnings, 5, "warnings"@);
    assert(rows[start] == part[0]);
    assert forall|k: int| 0 <= k < warnings.len() && k < 5 implies rows[start + 1 + k]
        == cluster_line(log.warnings[(#[trigger] warnings[k]).0].1, warnings[k].1) by {
        assert(rows[start + 1 + k] == part[1 + k]);
    }
    if warnings.len() > 5 {
        assert(rows[start + 6] == part[6]);
        reveal_strlit(" more unique ");
        reveal_strlit(" more unique warnings");
        reveal_strlit("warnings");
        assert(" more unique warnings"@ =~= " more unique "@ + "warnings"@);
        lemma_more(warnings.len(), 5, "warnings"@, " more unique warnings"@, rows[start + 6]);
    }
}

/// A report is on the errors and warnings that are collected from the lines of the log, in
/// clusters of normalized lines, ranked: by sketches that agree in more than 54 bits, or by
/// equality.
pub proof fn law_report_is_on_collected_lines(content: Seq<char>)
    ensures
        ({
            let log = collected(lines_of(content));
            let (errors, warnings) = (keys(log.errors), keys(log.warnings));
            &&& sketched_report(content) == report(
                log,
                ranked(sketched_clusters(errors, 54)),
                ranked(sketched_clusters(warnings, 54)),
            )
            &&& exact_report(content) == report(
                log,
                ranked(exact_clusters(errors)),
                ranked(exact_clusters(warnings)),
            )
        }),
{
}

/// What is said of clusters left over tells their number.
proof fn lemma_more(
    clusters: nat,
    limit: int,
    what: Seq<char>,
    after: Seq<char>,
    row: Seq<char>,
)
    requires
        clusters > limit >= 0,
        more_line(clusters, limit, what) == seq![row],
        after == " more unique "@ + what,
    ensures
        tells_number(row, "   ... +"@, (clusters - limit) as nat, after),
{
    let n = (clusters - limit) as nat;
    law_decimal_reads_back(n);
    let digits = decimal(n);
    assert(is_decimal(digits, n));
    assert(more_line(clusters, limit, what)[0] == row);
    assert(row =~= "   ... +"@ + digits + after);
}

} // verus!
