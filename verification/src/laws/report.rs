//! What deduplication and the reports promise.

use vstd::prelude::*;
use vstd::utf8::{encode_scalar, encode_utf8, is_ascii_chars};

use crate::cluster::{accepts, belongs, clusters, exemplars, lemma_belongs};
use crate::collect::{
    ascii_lowercase, collected, keys, line_severity, lines_with, with_normalized, LogModel,
    Severity,
};
use crate::laws::cluster::{
    doubled, law_coarser_makes_fewer_clusters, law_counts_add_up, law_lines_twice,
    law_order_keeps_total, law_same_relation_same_clusters, total,
};
use crate::laws::order::{
    counts, law_exact_counts_ignore_order, law_filter_ignores_order, law_ranking_ignores_doubling,
    lemma_map_keeps_permutation,
};
use crate::laws::sketch::{law_equal_sketches_share_cluster, law_similarity_full};
use crate::laws::text::{
    law_final_line_feed_is_optional, law_further_line_feed_adds_empty_line,
    law_lines_of_joined_texts,
};
use crate::log_cmd::{
    exact_clusters, exact_report, lemma_ranked_clusters_show_lines, same_key, sketched_report,
    SKETCH_SIMILARITY_THRESHOLD,
};
use crate::normalize::normalized;
use crate::rank::{law_ranked, ranked};
use crate::report::{least, more_line, report, report_lines, section, shortened, summary};
use crate::sketch::{line_sketches, similar, sketched_clusters};
use crate::text::{joined, lines_of};

verus! {

/// A number of agreeing bits exceeds the threshold where it exceeds 85 percent of the 64 bits, and
/// only there.
pub proof fn law_threshold_is_85_percent(agreeing_bits: nat)
    ensures
        agreeing_bits > SKETCH_SIMILARITY_THRESHOLD <==> 100 * agreeing_bits > 85 * 64,
{
}

/// Every line reports one thing: the lines of all severities add up to the lines there are.
pub proof fn law_lines_add_up(lines: Seq<Seq<char>>)
    ensures
        lines_with(lines, Severity::Error).len() + lines_with(lines, Severity::Warning).len()
            + lines_with(lines, Severity::Info).len() + lines_with(lines, Severity::Other).len()
            == lines.len(),
    decreases lines.len(),
{
    reveal(Seq::filter);
    if lines.len() > 0 {
        law_lines_add_up(lines.drop_last());
    }
}

/// What a line of ASCII characters reports does not depend on the case of its letters.
pub proof fn law_ascii_case_does_not_matter(a: Seq<char>, b: Seq<char>)
    requires
        is_ascii_chars(a),
        is_ascii_chars(b),
        ascii_lowercase(a) == ascii_lowercase(b),
    ensures
        line_severity(a) == line_severity(b),
{
}

/// The report on a log does not depend on a line feed at its end, where no carriage return
/// stands before it.
pub proof fn law_report_ignores_final_line_feed(content: Seq<char>)
    requires
        content.len() == 0 || content.last() != '\r',
    ensures
        sketched_report(content.push('\n')) == sketched_report(content),
        exact_report(content.push('\n')) == exact_report(content),
{
    lemma_collected_final_line_feed(content);
}

/// The order of the lines of a log has no influence on the totals and the counts that exact
/// deduplication reports: the summary, the counts down each section and what is said of further
/// clusters are the same for a log with the same lines in another order.
pub proof fn law_exact_totals_and_counts_ignore_order(c1: Seq<char>, c2: Seq<char>)
    requires
        lines_of(c1).to_multiset() == lines_of(c2).to_multiset(),
    ensures
        ({
            let a = collected(lines_of(c1));
            let b = collected(lines_of(c2));
            let (a_errors, a_warnings) = (
                ranked(exact_clusters(keys(a.errors))),
                ranked(exact_clusters(keys(a.warnings))),
            );
            let (b_errors, b_warnings) = (
                ranked(exact_clusters(keys(b.errors))),
                ranked(exact_clusters(keys(b.warnings))),
            );
            &&& exact_report(c1) == report(a, a_errors, a_warnings)
            &&& exact_report(c2) == report(b, b_errors, b_warnings)
            &&& summary(a, a_errors.len(), a_warnings.len()) == summary(
                b,
                b_errors.len(),
                b_warnings.len(),
            )
            &&& counts(a_errors) == counts(b_errors)
            &&& counts(a_warnings) == counts(b_warnings)
            &&& more_line(a_errors.len(), 10, "errors"@) == more_line(
                b_errors.len(),
                10,
                "errors"@,
            )
            &&& more_line(a_warnings.len(), 5, "warnings"@) == more_line(
                b_warnings.len(),
                5,
                "warnings"@,
            )
        }),
{
    let (x, y) = (lines_of(c1), lines_of(c2));
    lemma_collected_ignores_order(x, y, Severity::Error);
    lemma_collected_ignores_order(x, y, Severity::Warning);
    lemma_collected_ignores_order(x, y, Severity::Info);
    let (a, b) = (collected(x), collected(y));
    law_exact_counts_ignore_order(keys(a.errors), keys(b.errors));
    law_exact_counts_ignore_order(keys(a.warnings), keys(b.warnings));
    law_ranked(exact_clusters(keys(a.errors)));
    law_ranked(exact_clusters(keys(a.warnings)));
    law_ranked(exact_clusters(keys(b.errors)));
    law_ranked(exact_clusters(keys(b.warnings)));
}

/// The log with all its lines twice.
pub open spec fn twice(log: LogModel) -> LogModel {
    LogModel {
        errors: log.errors + log.errors,
        warnings: log.warnings + log.warnings,
        info_count: 2 * log.info_count,
    }
}

/// A log that is read twice over is reported with its totals and all counts doubled; the number
/// of clusters, their exemplars and their order stay the same.
pub proof fn law_log_read_twice(content: Seq<char>)
    requires
        content.len() == 0 || content.last() != '\r',
    ensures
        ({
            let log = collected(lines_of(content));
            let threshold = SKETCH_SIMILARITY_THRESHOLD as int;
            let errors = ranked(sketched_clusters(keys(log.errors), threshold));
            let warnings = ranked(sketched_clusters(keys(log.warnings), threshold));
            &&& sketched_report(content) == report(log, errors, warnings)
            &&& sketched_report(content.push('\n') + content) == report(
                twice(log),
                doubled(errors),
                doubled(warnings),
            )
            &&& same_exemplars(log.errors, errors)
            &&& same_exemplars(log.warnings, warnings)
        }),
{
    let log = collected(lines_of(content));
    let threshold = SKETCH_SIMILARITY_THRESHOLD as int;
    lemma_collected_twice(content);
    lemma_sketched_twice(log.errors, threshold);
    lemma_sketched_twice(log.warnings, threshold);
    lemma_same_exemplars(log.errors, similar(line_sketches(keys(log.errors)), threshold));
    lemma_same_exemplars(log.warnings, similar(line_sketches(keys(log.warnings)), threshold));
}

/// The same holds of exact deduplication.
pub proof fn law_log_read_twice_exact(content: Seq<char>)
    requires
        content.len() == 0 || content.last() != '\r',
    ensures
        ({
            let log = collected(lines_of(content));
            let errors = ranked(exact_clusters(keys(log.errors)));
            let warnings = ranked(exact_clusters(keys(log.warnings)));
            &&& exact_report(content) == report(log, errors, warnings)
            &&& exact_report(content.push('\n') + content) == report(
                twice(log),
                doubled(errors),
                doubled(warnings),
            )
            &&& same_exemplars(log.errors, errors)
            &&& same_exemplars(log.warnings, warnings)
        }),
{
    let log = collected(lines_of(content));
    lemma_collected_twice(content);
    lemma_exact_twice(log.errors);
    lemma_exact_twice(log.warnings);
    lemma_same_exemplars(log.errors, same_key(keys(log.errors)));
    lemma_same_exemplars(log.warnings, same_key(keys(log.warnings)));
}

/// Each cluster of lines that come twice shows the exemplar that it shows of the lines that come
/// once.
pub open spec fn same_exemplars(
    lines: Seq<(Seq<char>, Seq<char>)>,
    clusters: Seq<(int, int)>,
) -> bool {
    &&& doubled(clusters).len() == clusters.len()
    &&& forall|k: int|
        0 <= k < clusters.len() ==> (lines + lines)[(#[trigger] doubled(clusters)[k]).0]
            == lines[clusters[k].0] && doubled(clusters)[k].1 == 2 * clusters[k].1
}

/// The counts shown by a report add up to the number of errors, and of warnings, in the log,
/// however the lines are clustered.
pub proof fn law_report_counts_add_up(n: nat, alike: spec_fn(int, int) -> bool)
    ensures
        total(ranked(clusters(n, alike))) == n,
{
    law_counts_add_up(n, alike);
    law_ranked(clusters(n, alike));
    law_order_keeps_total(ranked(clusters(n, alike)), clusters(n, alike));
}

/// Exact deduplication puts two lines into one cluster where they normalize to the same text,
/// and only there.
pub proof fn law_exact_clusters_are_equal_texts(texts: Seq<Seq<char>>, i: int, j: int, k: int)
    requires
        0 <= i < texts.len(),
        0 <= j < texts.len(),
        belongs(exemplars(texts.len(), same_key(texts)), same_key(texts), k, i),
    ensures
        belongs(exemplars(texts.len(), same_key(texts)), same_key(texts), k, j) <==> texts[i]
            == texts[j],
{
    let alike = same_key(texts);
    let e = exemplars(texts.len(), alike);
    let h = lemma_belongs(texts.len(), alike, j);
    assert(texts[e[k]] == texts[i]);
    assert(texts[e[h]] == texts[j]);
    if texts[i] == texts[j] {
        if h < k {
            assert(accepts(e, alike, h, i));
        }
        if k < h {
            assert(accepts(e, alike, k, j));
        }
    }
}

/// Lines that normalize to the same text share a cluster of near duplicates too.
pub proof fn law_equal_texts_share_sketched_cluster(
    texts: Seq<Seq<char>>,
    threshold: int,
    i: int,
    j: int,
    k: int,
)
    requires
        threshold < 64,
        0 <= j < i < texts.len(),
        texts[i] == texts[j],
    ensures
        belongs(
            exemplars(texts.len(), similar(line_sketches(texts), threshold)),
            similar(line_sketches(texts), threshold),
            k,
            i,
        ) <==> belongs(
            exemplars(texts.len(), similar(line_sketches(texts), threshold)),
            similar(line_sketches(texts), threshold),
            k,
            j,
        ),
{
    law_equal_sketches_share_cluster(line_sketches(texts), threshold, i, j, k);
}

/// Clustering near duplicates never leaves more clusters than exact deduplication does.
pub proof fn law_sketching_leaves_no_more_clusters(texts: Seq<Seq<char>>, threshold: int)
    requires
        threshold < 64,
    ensures
        sketched_clusters(texts, threshold).len() <= exact_clusters(texts).len(),
{
    let sketches = line_sketches(texts);
    let finer = same_key(texts);
    let coarser = similar(sketches, threshold);
    assert forall|j: int, i: int|
        0 <= j < i < texts.len() && #[trigger] finer(j, i) implies coarser(j, i) by {
        law_similarity_full(sketches[j], sketches[i]);
    }
    law_coarser_makes_fewer_clusters(texts.len(), finer, coarser);
}

/// Where near duplicates are exact duplicates, both analyses give the same report.
pub proof fn law_reports_agree(content: Seq<char>)
    requires
        forall|j: int, i: int|
            0 <= j < i < collected(lines_of(content)).errors.len() ==> #[trigger] same_key(
                keys(collected(lines_of(content)).errors),
            )(j, i) == similar(
                line_sketches(keys(collected(lines_of(content)).errors)),
                SKETCH_SIMILARITY_THRESHOLD as int,
            )(j, i),
        forall|j: int, i: int|
            0 <= j < i < collected(lines_of(content)).warnings.len() ==> #[trigger] same_key(
                keys(collected(lines_of(content)).warnings),
            )(j, i) == similar(
                line_sketches(keys(collected(lines_of(content)).warnings)),
                SKETCH_SIMILARITY_THRESHOLD as int,
            )(j, i),
    ensures
        sketched_report(content) == exact_report(content),
{
    let log = collected(lines_of(content));
    let threshold = SKETCH_SIMILARITY_THRESHOLD as int;
    law_same_relation_same_clusters(
        log.errors.len(),
        same_key(keys(log.errors)),
        similar(line_sketches(keys(log.errors)), threshold),
    );
    law_same_relation_same_clusters(
        log.warnings.len(),
        same_key(keys(log.warnings)),
        similar(line_sketches(keys(log.warnings)), threshold),
    );
}

/// A log without errors and warnings is reported by its summary alone.
pub proof fn law_quiet_log(content: Seq<char>)
    requires
        lines_with(lines_of(content), Severity::Error).len() == 0,
        lines_with(lines_of(content), Severity::Warning).len() == 0,
    ensures
        sketched_report(content) == joined(summary(collected(lines_of(content)), 0, 0), "\n"@),
        exact_report(content) == joined(summary(collected(lines_of(content)), 0, 0), "\n"@),
{
    let log = collected(lines_of(content));
    let none = Seq::<(int, int)>::empty();
    assert(keys(log.errors).len() == 0);
    assert(keys(log.warnings).len() == 0);
    lemma_ranked_nothing(same_key(keys(log.errors)));
    lemma_ranked_nothing(same_key(keys(log.warnings)));
    let threshold = SKETCH_SIMILARITY_THRESHOLD as int;
    lemma_ranked_nothing(similar(line_sketches(keys(log.errors)), threshold));
    lemma_ranked_nothing(similar(line_sketches(keys(log.warnings)), threshold));
    assert(report_lines(log, none, none) =~= summary(log, 0, 0));
    assert(report(log, none, none) == joined(summary(log, 0, 0), "\n"@));
}

/// A section has a title, a line for each cluster up to the limit, and one line more where
/// there are clusters beyond it.
pub proof fn law_section_length(
    title: Seq<char>,
    lines: Seq<(Seq<char>, Seq<char>)>,
    clusters: Seq<(int, int)>,
    limit: int,
    what: Seq<char>,
)
    requires
        limit >= 0,
        clusters.len() > 0,
    ensures
        section(title, lines, clusters, limit, what).len() == 1 + least(
            limit,
            clusters.len() as int,
        ) + (if clusters.len() > limit {
            1int
        } else {
            0
        }),
{
}

/// No line is shown with more than 100 characters.
pub proof fn law_shown_line_length(line: Seq<char>)
    ensures
        shortened(line).len() <= 100,
{
    lemma_bytes_cover_chars(line);
    reveal_strlit("...");
}

// ---- Lemmas ----

/// An empty line reports nothing.
proof fn lemma_empty_line_reports_nothing()
    ensures
        line_severity(Seq::empty()) is Other,
{
    reveal_strlit("error");
    reveal_strlit("fatal");
    reveal_strlit("panic");
    reveal_strlit("warn");
    reveal_strlit("info");
    assert(ascii_lowercase(Seq::empty()) =~= Seq::empty());
}

proof fn lemma_collected_add(a: Seq<Seq<char>>, b: Seq<Seq<char>>)
    ensures
        collected(a + b).errors == collected(a).errors + collected(b).errors,
        collected(a + b).warnings == collected(a).warnings + collected(b).warnings,
        collected(a + b).info_count == collected(a).info_count + collected(b).info_count,
{
    lemma_lines_with_add(a, b, Severity::Error);
    lemma_lines_with_add(a, b, Severity::Warning);
    lemma_lines_with_add(a, b, Severity::Info);
    assert(collected(a + b).errors =~= collected(a).errors + collected(b).errors);
    assert(collected(a + b).warnings =~= collected(a).warnings + collected(b).warnings);
}

proof fn lemma_lines_with_add(a: Seq<Seq<char>>, b: Seq<Seq<char>>, severity: Severity)
    ensures
        lines_with(a + b, severity) == lines_with(a, severity) + lines_with(b, severity),
{
    Seq::filter_distributes_over_add(
        a,
        b,
        |line: Seq<char>| line_severity(line) == severity,
    );
}

/// A line feed at the end of a log adds nothing that matters.
proof fn lemma_collected_final_line_feed(content: Seq<char>)
    requires
        content.len() == 0 || content.last() != '\r',
    ensures
        collected(lines_of(content.push('\n'))) == collected(lines_of(content)),
{
    if content.len() > 0 && content.last() != '\n' {
        law_final_line_feed_is_optional(content);
    } else {
        let lines = lines_of(content);
        law_further_line_feed_adds_empty_line(content);
        lemma_empty_line_reports_nothing();
        reveal(Seq::filter);
        assert(lines.push(Seq::empty()).drop_last() =~= lines);
    }
}

proof fn lemma_collected_twice(content: Seq<char>)
    requires
        content.len() == 0 || content.last() != '\r',
    ensures
        collected(lines_of(content.push('\n') + content)) == twice(collected(lines_of(content))),
{
    law_lines_of_joined_texts(content, content);
    lemma_collected_final_line_feed(content);
    lemma_collected_add(lines_of(content.push('\n')), lines_of(content));
    assert(collected(lines_of(content.push('\n') + content)) =~= twice(
        collected(lines_of(content)),
    ));
}

proof fn lemma_sketched_twice(lines: Seq<(Seq<char>, Seq<char>)>, threshold: int)
    requires
        threshold < 64,
    ensures
        ranked(sketched_clusters(keys(lines + lines), threshold)) == doubled(
            ranked(sketched_clusters(keys(lines), threshold)),
        ),
{
    let n = lines.len();
    let (a, b) = (line_sketches(keys(lines)), line_sketches(keys(lines + lines)));
    let (once, both) = (similar(a, threshold), similar(b, threshold));
    assert forall|i: int| 0 <= i < n implies #[trigger] a[i] == b[i] && a[i] == b[n + i] by {}
    assert forall|i: int| 0 <= i < n implies #[trigger] once(i, i) by {
        law_similarity_full(a[i], a[i]);
    }
    assert forall|j: int, i: int| 0 <= j < n && 0 <= i < n implies #[trigger] once(j, i) == both(
        j,
        n + i,
    ) by {
        assert(a[j] == b[j] && a[i] == b[n + i]);
    }
    law_lines_twice(n, once, both);
    law_ranking_ignores_doubling(sketched_clusters(keys(lines), threshold));
}

proof fn lemma_exact_twice(lines: Seq<(Seq<char>, Seq<char>)>)
    ensures
        ranked(exact_clusters(keys(lines + lines))) == doubled(ranked(exact_clusters(keys(lines)))),
{
    let n = lines.len();
    let (a, b) = (keys(lines), keys(lines + lines));
    let (once, both) = (same_key(a), same_key(b));
    assert forall|i: int| 0 <= i < n implies #[trigger] a[i] == b[i] && a[i] == b[n + i] by {}
    assert forall|j: int, i: int| 0 <= j < n && 0 <= i < n implies #[trigger] once(j, i) == both(
        j,
        n + i,
    ) by {
        assert(a[j] == b[j] && a[i] == b[n + i]);
    }
    law_lines_twice(n, once, both);
    law_ranking_ignores_doubling(exact_clusters(keys(lines)));
}

proof fn lemma_same_exemplars(
    lines: Seq<(Seq<char>, Seq<char>)>,
    alike: spec_fn(int, int) -> bool,
)
    ensures
        same_exemplars(lines, ranked(clusters(lines.len(), alike))),
{
    let c = ranked(clusters(lines.len(), alike));
    lemma_ranked_clusters_show_lines(lines.len(), alike, c.len() as int);
    assert forall|k: int| 0 <= k < c.len() implies (lines + lines)[(#[trigger] doubled(c)[k]).0]
        == lines[c[k].0] by {
        assert(0 <= c[k].0 < lines.len());
    }
}

/// The same lines, in whatever order, hold the same lines of a severity.
proof fn lemma_collected_ignores_order(a: Seq<Seq<char>>, b: Seq<Seq<char>>, severity: Severity)
    requires
        a.to_multiset() == b.to_multiset(),
    ensures
        lines_with(a, severity).len() == lines_with(b, severity).len(),
        keys(with_normalized(lines_with(a, severity))).to_multiset() == keys(
            with_normalized(lines_with(b, severity)),
        ).to_multiset(),
{
    let (x, y) = (lines_with(a, severity), lines_with(b, severity));
    let key = |line: Seq<char>| normalized(line);
    law_filter_ignores_order(a, b, |line: Seq<char>| line_severity(line) == severity);
    x.to_multiset_ensures();
    y.to_multiset_ensures();
    lemma_map_keeps_permutation(x, y, key);
    assert(keys(with_normalized(x)) =~= x.map_values(key));
    assert(keys(with_normalized(y)) =~= y.map_values(key));
}

proof fn lemma_ranked_nothing(alike: spec_fn(int, int) -> bool)
    ensures
        ranked(clusters(0, alike)) == Seq::<(int, int)>::empty(),
{
    law_ranked(clusters(0, alike));
}

/// A character takes at least one byte.
proof fn lemma_bytes_cover_chars(chars: Seq<char>)
    ensures
        encode_utf8(chars).len() >= chars.len(),
    decreases chars.len(),
{
    if chars.len() > 0 {
        lemma_bytes_cover_chars(chars.drop_first());
        assert(encode_scalar(chars[0] as u32).len() >= 1);
    }
}

} // verus!
