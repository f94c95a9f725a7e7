//! The report on a log: a summary, and the largest clusters of errors and warnings.

use vstd::prelude::*;
use vstd::utf8::encode_utf8;

use crate::cluster::as_ints;
use crate::collect::{pairs, LogLines, LogModel};
use crate::text::{decimal, join, joined, lemma_texts_push, texts, to_decimal};

verus! {

// ---- Meaning ----

/// The smaller number.
pub open spec fn least(a: int, b: int) -> int {
    if a <= b {
        a
    } else {
        b
    }
}

/// A line as it is shown: where it takes more than 100 bytes, its first 97 characters and an
/// ellipsis.
pub open spec fn shortened(line: Seq<char>) -> Seq<char> {
    if encode_utf8(line).len() > 100 {
        line.take(least(97, line.len() as int)) + "..."@
    } else {
        line
    }
}

/// A cluster as it is shown: its exemplar, with the count where that is more than one.
pub open spec fn cluster_line(line: Seq<char>, count: int) -> Seq<char> {
    if count > 1 {
        "   [×"@ + decimal(count as nat) + "] "@ + shortened(line)
    } else {
        "   "@ + shortened(line)
    }
}

/// The first clusters, up to `limit` of them, as they are shown.
pub open spec fn cluster_lines(
    lines: Seq<(Seq<char>, Seq<char>)>,
    clusters: Seq<(int, int)>,
    limit: int,
) -> Seq<Seq<char>> {
    Seq::new(
        least(limit, clusters.len() as int) as nat,
        |k: int| cluster_line(lines[clusters[k].0].1, clusters[k].1),
    )
}

/// The exemplars of the first clusters, up to `limit` of them, are lines.
pub open spec fn shows_lines(clusters: Seq<(int, int)>, limit: int, n: nat) -> bool {
    forall|k: int|
        0 <= k < least(limit, clusters.len() as int) ==> 0 <= (#[trigger] clusters[k]).0 < n
}

/// What a section says of the clusters beyond its limit, if there are any.
pub open spec fn more_line(clusters: nat, limit: int, what: Seq<char>) -> Seq<Seq<char>> {
    if clusters > limit {
        seq!["   ... +"@ + decimal((clusters - limit) as nat) + " more unique "@ + what]
    } else {
        Seq::empty()
    }
}

/// A section of the report: its title, its clusters up to `limit`, and how many more there are.
/// Without clusters there is no section.
pub open spec fn section(
    title: Seq<char>,
    lines: Seq<(Seq<char>, Seq<char>)>,
    clusters: Seq<(int, int)>,
    limit: int,
    what: Seq<char>,
) -> Seq<Seq<char>> {
    if clusters.len() == 0 {
        Seq::empty()
    } else {
        seq![title] + cluster_lines(lines, clusters, limit) + more_line(
            clusters.len(),
            limit,
            what,
        )
    }
}

/// The lines at the head of the report.
pub open spec fn summary(log: LogModel, error_clusters: nat, warn_clusters: nat) -> Seq<
    Seq<char>,
> {
    seq![
        "Log Summary"@,
        "   [error] "@ + decimal(log.errors.len()) + " errors ("@ + decimal(error_clusters)
            + " unique)"@,
        "   [warn] "@ + decimal(log.warnings.len()) + " warnings ("@ + decimal(warn_clusters)
            + " unique)"@,
        "   [info] "@ + decimal(log.info_count) + " info messages"@,
        Seq::empty(),
    ]
}

/// The lines of the report.
pub open spec fn report_lines(
    log: LogModel,
    error_clusters: Seq<(int, int)>,
    warn_clusters: Seq<(int, int)>,
) -> Seq<Seq<char>> {
    summary(log, error_clusters.len(), warn_clusters.len()) + section(
        "[ERRORS]"@,
        log.errors,
        error_clusters,
        10,
        "errors"@,
    ) + (if error_clusters.len() == 0 {
        Seq::empty()
    } else {
        seq![Seq::empty()]
    }) + section("[WARNINGS]"@, log.warnings, warn_clusters, 5, "warnings"@)
}

/// The report.
pub open spec fn report(
    log: LogModel,
    error_clusters: Seq<(int, int)>,
    warn_clusters: Seq<(int, int)>,
) -> Seq<char> {
    joined(report_lines(log, error_clusters, warn_clusters), "\n"@)
}

// ---- Functions ----

/// Shortens a line to be shown.
pub fn shorten(line: &str) -> (r: String)
    ensures
        r@ == shortened(line@),
{
    if line.as_bytes().len() > 100 {
        let length = line.unicode_len();
        let shown = if length < 97 {
            length
        } else {
            97
        };
        let mut out = line.substring_char(0, shown).to_owned();
        out.append("...");
        out
    } else {
        line.to_owned()
    }
}

/// Formats clustered lines into output, showing exemplar and count.
pub fn format_clusters(
    lines: &[(String, String)],
    clusters: &[(usize, usize)],
    limit: usize,
    result: &mut Vec<String>,
)
    requires
        shows_lines(as_ints(clusters@), limit as int, lines@.len()),
    ensures
        texts(final(result)@) == texts(old(result)@) + cluster_lines(
            pairs(lines@),
            as_ints(clusters@),
            limit as int,
        ),
{
    let ghost wanted = cluster_lines(pairs(lines@), as_ints(clusters@), limit as int);
    let shown: usize = if limit < clusters.len() {
        limit
    } else {
        clusters.len()
    };
    assert(texts(result@) + wanted.take(0) =~= texts(result@));
    for k in 0..shown
        invariant
            shown == least(limit as int, clusters@.len() as int),
            shows_lines(as_ints(clusters@), limit as int, lines@.len()),
            wanted == cluster_lines(pairs(lines@), as_ints(clusters@), limit as int),
            texts(result@) == texts(old(result)@) + wanted.take(k as int),
    {
        let (exemplar, count) = clusters[k];
        assert(as_ints(clusters@)[k as int] == (exemplar as int, count as int));
        let original = lines[exemplar].1.as_str();
        let truncated = shorten(original);
        let mut line = "   ".to_owned();
        if count > 1 {
            line = "   [×".to_owned();
            line.append(to_decimal(count).as_str());
            line.append("] ");
        }
        line.append(truncated.as_str());
        assert(line@ =~= wanted[k as int]);
        proof {
            lemma_texts_push(result@, line);
        }
        result.push(line);
        assert(texts(result@) =~= texts(old(result)@) + wanted.take(k + 1));
    }
    assert(wanted.take(shown as int) =~= wanted);
}

/// Formats a section of the report.
fn format_section(
    title: &str,
    lines: &[(String, String)],
    clusters: &[(usize, usize)],
    limit: usize,
    what: &str,
    result: &mut Vec<String>,
)
    requires
        shows_lines(as_ints(clusters@), limit as int, lines@.len()),
    ensures
        texts(final(result)@) == texts(old(result)@) + section(
            title@,
            pairs(lines@),
            as_ints(clusters@),
            limit as int,
            what@,
        ),
{
    if clusters.len() > 0 {
        let heading = title.to_owned();
        proof {
            lemma_texts_push(result@, heading);
        }
        result.push(heading);
        format_clusters(lines, clusters, limit, result);
        if clusters.len() > limit {
            let mut more = "   ... +".to_owned();
            more.append(to_decimal(clusters.len() - limit).as_str());
            more.append(" more unique ");
            more.append(what);
            proof {
                lemma_texts_push(result@, more);
            }
            result.push(more);
        }
    }
    assert(texts(result@) =~= texts(old(result)@) + section(
        title@,
        pairs(lines@),
        as_ints(clusters@),
        limit as int,
        what@,
    ));
}

/// Writes a count between two texts.
fn count_line(before: &str, count: usize, after: &str) -> (r: String)
    ensures
        r@ == before@ + decimal(count as nat) + after@,
{
    let mut line = before.to_owned();
    line.append(to_decimal(count).as_str());
    line.append(after);
    line
}

/// Writes the report on a log and its clusters.
pub fn format_report(
    log: &LogLines,
    error_clusters: &[(usize, usize)],
    warn_clusters: &[(usize, usize)],
) -> (r: String)
    requires
        shows_lines(as_ints(error_clusters@), 10, log.errors@.len()),
        shows_lines(as_ints(warn_clusters@), 5, log.warnings@.len()),
    ensures
        r@ == report(log@, as_ints(error_clusters@), as_ints(warn_clusters@)),
{
    let mut result: Vec<String> = Vec::new();
    result.push("Log Summary".to_owned());
    let mut line = count_line("   [error] ", log.errors.len(), " errors (");
    line.append(to_decimal(error_clusters.len()).as_str());
    line.append(" unique)");
    result.push(line);
    let mut line = count_line("   [warn] ", log.warnings.len(), " warnings (");
    line.append(to_decimal(warn_clusters.len()).as_str());
    line.append(" unique)");
    result.push(line);
    result.push(count_line("   [info] ", log.info_count, " info messages"));
    result.push(String::new());
    assert(texts(result@) =~= summary(log@, error_clusters@.len(), warn_clusters@.len()));
    format_section(
        "[ERRORS]",
        log.errors.as_slice(),
        error_clusters,
        10,
        "errors",
        &mut result,
    );
    if error_clusters.len() > 0 {
        result.push(String::new());
    }
    format_section(
        "[WARNINGS]",
        log.warnings.as_slice(),
        warn_clusters,
        5,
        "warnings",
        &mut result,
    );
    assert(texts(result@) =~= report_lines(
        log@,
        as_ints(error_clusters@),
        as_ints(warn_clusters@),
    ));
    join(&result, "\n")
}

} // verus!
