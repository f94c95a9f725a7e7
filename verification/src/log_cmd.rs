//! Deduplicates repeated log lines and shows counts instead.

use vstd::hash_map::StringHashMap;
use vstd::prelude::*;

use crate::cluster::{
    as_ints, clusters, exemplars, lemma_clusters_join, lemma_clusters_new, lemma_exemplars_ordered,
    lemma_members_bound,
};
use crate::collect::{collect, collected, keys, pairs};
use crate::rank::{law_ranked, ranked, sort_by_count};
use crate::report::{format_report, least, report, shows_lines};
use crate::sketch::{deduplicate_sketched, line_sketches, similar, sketched_clusters, views};
use crate::text::lines_of;

verus! {

/// The similarity, in bits of 64, that the sketches of near duplicates exceed. This is 85 percent,
/// rounded down to whole bits.
pub const SKETCH_SIMILARITY_THRESHOLD: i32 = 54;

// ---- Meaning ----

/// Line number `i` normalizes to the same text as line number `j`.
pub open spec fn same_key(keys: Seq<Seq<char>>) -> spec_fn(int, int) -> bool {
    |j: int, i: int| keys[j] == keys[i]
}

/// The clusters of lines that normalize to the same text.
pub open spec fn exact_clusters(keys: Seq<Seq<char>>) -> Seq<(int, int)> {
    clusters(keys.len(), same_key(keys))
}

/// `places` tells for each exemplar's text, and for no other, which exemplar that is.
spec fn indexes(places: Map<Seq<char>, usize>, all: Seq<Seq<char>>, e: Seq<int>) -> bool {
    &&& forall|key: Seq<char>| #[trigger]
        places.contains_key(key) ==> places[key] < e.len() && all[e[places[key] as int]] == key
    &&& forall|k: int|
        0 <= k < e.len() ==> places.contains_key(all[#[trigger] e[k]]) && places[all[e[k]]] == k
}

/// The report on a log whose near duplicates are clustered.
pub open spec fn sketched_report(content: Seq<char>) -> Seq<char> {
    let log = collected(lines_of(content));
    let threshold = SKETCH_SIMILARITY_THRESHOLD as int;
    report(
        log,
        ranked(sketched_clusters(keys(log.errors), threshold)),
        ranked(sketched_clusters(keys(log.warnings), threshold)),
    )
}

/// The report on a log whose exact duplicates, after normalization, are clustered.
pub open spec fn exact_report(content: Seq<char>) -> Seq<char> {
    let log = collected(lines_of(content));
    report(
        log,
        ranked(exact_clusters(keys(log.errors))),
        ranked(exact_clusters(keys(log.warnings))),
    )
}

// ---- Functions ----

/// Clusters lines using sketch similarity on the normalized text. Returns
/// `(exemplar_index, count)` pairs sorted by count descending.
pub fn sketch_cluster_lines(lines: &[(String, String)], threshold: i32) -> (r: Vec<(usize, usize)>)
    ensures
        as_ints(r@) == ranked(sketched_clusters(keys(pairs(lines@)), threshold as int)),
{
    let mut normalized_refs: Vec<&str> = Vec::new();
    for i in 0..lines.len()
        invariant
            views(normalized_refs@) == keys(pairs(lines@)).take(i as int),
    {
        let ghost before = normalized_refs@;
        normalized_refs.push(lines[i].0.as_str());
        assert(views(normalized_refs@) =~= views(before).push(lines@[i as int].0@));
        assert(views(normalized_refs@) =~= keys(pairs(lines@)).take(i + 1));
    }
    assert(views(normalized_refs@) =~= keys(pairs(lines@)));
    let found = deduplicate_sketched(normalized_refs.as_slice(), threshold);
    sort_by_count(found.as_slice())
}

/// Clusters lines with equal normalized text. Returns `(exemplar_index, count)` pairs sorted by
/// count descending.
pub fn exact_cluster_lines(lines: &[(String, String)]) -> (r: Vec<(usize, usize)>)
    ensures
        as_ints(r@) == ranked(exact_clusters(keys(pairs(lines@)))),
{
    let mut out: Vec<(usize, usize)> = Vec::new();
    let mut places: StringHashMap<usize> = StringHashMap::new();
    let ghost all = keys(pairs(lines@));
    let ghost alike = same_key(all);
    assert(as_ints(out@) =~= clusters(0, alike));
    assert(indexes(places@, all, exemplars(0, alike)));
    for i in 0..lines.len()
        invariant
            all == keys(pairs(lines@)),
            alike == same_key(all),
            as_ints(out@) == clusters(i as nat, alike),
            indexes(places@, all, exemplars(i as nat, alike)),
    {
        let ghost e = exemplars(i as nat, alike);
        let ghost before = out@;
        let key = &lines[i].0;
        assert(all[i as int] == key@);
        proof {
            lemma_exemplars_ordered(i as nat, alike);
            assert(as_ints(before).len() == e.len());
        }
        match places.get(key.as_str()) {
            Some(place) => {
                let k = *place;
                let (exemplar, count) = out[k];
                proof {
                    assert(as_ints(before)[k as int] == clusters(i as nat, alike)[k as int]);
                    assert forall|j: int| 0 <= j < k implies !alike(
                        #[trigger] e[j],
                        i as int,
                    ) by {
                        assert(places@[all[e[j]]] == j);
                    }
                    lemma_members_bound(i as nat, e, alike, k as int);
                    lemma_clusters_join(i as nat, alike, k as int);
                }
                out.set(k, (exemplar, count + 1));
                assert(as_ints(out@) =~= clusters(i as nat + 1, alike));
            },
            None => {
                proof {
                    assert forall|j: int| 0 <= j < e.len() implies !alike(
                        #[trigger] e[j],
                        i as int,
                    ) by {
                        assert(places@.contains_key(all[e[j]]));
                    }
                    lemma_clusters_new(i as nat, alike);
                }
                places.insert(key.clone(), out.len());
                out.push((i, 1));
                assert(as_ints(out@) =~= clusters(i as nat + 1, alike));
            },
        }
    }
    sort_by_count(out.as_slice())
}

/// Sketch-enhanced log analysis: normalize first, then use sketch similarity for fuzzy dedup
/// within each category.
pub fn analyze_logs_sketched(content: &str) -> (r: Option<String>)
    ensures
        r is Some,
        r->0@ == sketched_report(content@),
{
    let log = collect(content);
    let error_clusters = sketch_cluster_lines(log.errors.as_slice(), SKETCH_SIMILARITY_THRESHOLD);
    let warn_clusters = sketch_cluster_lines(log.warnings.as_slice(), SKETCH_SIMILARITY_THRESHOLD);
    proof {
        let threshold = SKETCH_SIMILARITY_THRESHOLD as int;
        lemma_ranked_clusters_show_lines(
            log@.errors.len(),
            similar(line_sketches(keys(log@.errors)), threshold),
            10,
        );
        lemma_ranked_clusters_show_lines(
            log@.warnings.len(),
            similar(line_sketches(keys(log@.warnings)), threshold),
            5,
        );
    }
    Some(format_report(&log, error_clusters.as_slice(), warn_clusters.as_slice()))
}

/// Exact dedup fallback, used if sketch analysis fails. Clusters with equal counts are listed
/// in the order in which they first appear.
pub fn analyze_logs_exact(content: &str) -> (r: String)
    ensures
        r@ == exact_report(content@),
{
    let log = collect(content);
    let error_clusters = exact_cluster_lines(log.errors.as_slice());
    let warn_clusters = exact_cluster_lines(log.warnings.as_slice());
    proof {
        lemma_ranked_clusters_show_lines(log@.errors.len(), same_key(keys(log@.errors)), 10);
        lemma_ranked_clusters_show_lines(log@.warnings.len(), same_key(keys(log@.warnings)), 5);
    }
    format_report(&log, error_clusters.as_slice(), warn_clusters.as_slice())
}

/// The output of sketch analysis, or where that failed, of exact dedup.
pub fn or_exact(sketched: Option<String>, content: &str) -> (r: String)
    ensures
        r@ == match sketched {
            Some(output) => output@,
            None => exact_report(content@),
        },
{
    match sketched {
        Some(output) => output,
        None => analyze_logs_exact(content),
    }
}

/// Analyzes a log: tries sketch-enhanced analysis and falls back to exact dedup on failure.
pub fn analyze_logs(content: &str) -> (r: String)
    ensures
        r@ == sketched_report(content@),
{
    or_exact(analyze_logs_sketched(content), content)
}

/// For use by other modules.
pub fn run_stdin_str(content: &str) -> (r: String)
    ensures
        r@ == sketched_report(content@),
{
    analyze_logs(content)
}

// ---- Lemmas ----

/// Ranking does not make up clusters: the exemplars are still lines.
pub proof fn lemma_ranked_clusters_show_lines(n: nat, alike: spec_fn(int, int) -> bool, limit: int)
    ensures
        shows_lines(ranked(clusters(n, alike)), limit, n),
{
    let c = clusters(n, alike);
    let r = ranked(c);
    law_ranked(c);
    lemma_exemplars_ordered(n, alike);
    c.to_multiset_ensures();
    r.to_multiset_ensures();
    assert forall|k: int| 0 <= k < least(limit, r.len() as int) implies 0 <= (#[trigger] r[k]).0
        < n by {
        assert(r.contains(r[k]));
        assert(r.to_multiset().count(r[k]) > 0);
        assert(c.contains(r[k]));
        let j = choose|j: int| 0 <= j < c.len() && c[j] == r[k];
        assert(c[j].0 == exemplars(n, alike)[j]);
    }
}

} // verus!
