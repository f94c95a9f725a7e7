//! What does not depend on the order in which things stand.

use vstd::prelude::*;
use vstd::relations::{sorted_by, total_ordering};
use vstd::seq_lib::{lemma_sorted_unique, to_multiset_build};

use crate::cluster::{clusters, exemplars, lemma_belongs, lemma_exemplars_ordered, members};
use crate::laws::cluster::{doubled, law_exemplars_apart, law_no_cluster_empty};
use crate::laws::report::law_exact_clusters_are_equal_texts;
use crate::log_cmd::{exact_clusters, same_key};
use crate::rank::{goes_before, law_ranked, law_ranked_unique, ranked};

verus! {

/// Ranking puts the cluster with the larger count first, and of two with the same count the one
/// whose exemplar comes first in the log. It neither loses nor makes up a cluster.
pub proof fn law_larger_counts_first(clusters: Seq<(int, int)>)
    ensures
        ({
            let r = ranked(clusters);
            &&& r.to_multiset() == clusters.to_multiset()
            &&& r.len() == clusters.len()
            &&& forall|i: int, j: int|
                0 <= i < j < r.len() ==> (#[trigger] r[i]).1 > (#[trigger] r[j]).1 || (r[i].1
                    == r[j].1 && r[i].0 <= r[j].0)
        }),
{
    law_ranked(clusters);
    let r = ranked(clusters);
    assert forall|i: int, j: int| 0 <= i < j < r.len() implies (#[trigger] r[i]).1
        > (#[trigger] r[j]).1 || (r[i].1 == r[j].1 && r[i].0 <= r[j].0) by {
        assert(goes_before(r[i], r[j]));
    }
}

/// Clusters that stand in this order are ranked, and no others are.
pub proof fn law_ranked_clusters_stay(r: Seq<(int, int)>)
    ensures
        ranked(r) == r <==> (forall|i: int, j: int|
            0 <= i < j < r.len() ==> (#[trigger] r[i]).1 > (#[trigger] r[j]).1 || (r[i].1
                == r[j].1 && r[i].0 <= r[j].0)),
{
    law_larger_counts_first(r);
    if forall|i: int, j: int|
        0 <= i < j < r.len() ==> (#[trigger] r[i]).1 > (#[trigger] r[j]).1 || (r[i].1 == r[j].1
            && r[i].0 <= r[j].0) {
        law_ranked_unique(r, r);
    }
}

/// The counts of the clusters.
pub open spec fn counts(clusters: Seq<(int, int)>) -> Seq<int> {
    clusters.map_values(|c: (int, int)| c.1)
}

/// The order in which the texts of lines come has no influence on the counts of their exact
/// clusters, from the largest to the smallest.
pub proof fn law_exact_counts_ignore_order(a: Seq<Seq<char>>, b: Seq<Seq<char>>)
    requires
        a.to_multiset() == b.to_multiset(),
    ensures
        counts(ranked(exact_clusters(a))) == counts(ranked(exact_clusters(b))),
        exact_clusters(a).len() == exact_clusters(b).len(),
{
    let (x, y) = (exemplar_texts(a), exemplar_texts(b));
    let how_often = |text: Seq<char>| a.to_multiset().count(text) as int;
    lemma_exemplar_texts(a);
    lemma_exemplar_texts(b);
    assert(x.to_multiset() =~= y.to_multiset());
    lemma_map_keeps_permutation(x, y, how_often);
    assert(counts(exact_clusters(a)) =~= x.map_values(how_often));
    assert(counts(exact_clusters(b)) =~= y.map_values(how_often));
    x.to_multiset_ensures();
    y.to_multiset_ensures();
    lemma_ranked_counts(exact_clusters(a), exact_clusters(b));
}

/// Doubling the counts does not change the ranking.
pub proof fn law_ranking_ignores_doubling(clusters: Seq<(int, int)>)
    ensures
        ranked(doubled(clusters)) == doubled(ranked(clusters)),
{
    let r = ranked(clusters);
    law_ranked(clusters);
    lemma_map_keeps_permutation(r, clusters, |c: (int, int)| (c.0, 2 * c.1));
    assert forall|i: int, j: int| 0 <= i < j < doubled(r).len() implies goes_before(
        #[trigger] doubled(r)[i],
        #[trigger] doubled(r)[j],
    ) by {
        assert(goes_before(r[i], r[j]));
    }
    law_ranked_unique(doubled(clusters), doubled(r));
}

/// A filter lets the same items pass, in whatever order they stand.
pub proof fn law_filter_ignores_order<A>(a: Seq<A>, b: Seq<A>, p: spec_fn(A) -> bool)
    requires
        a.to_multiset() == b.to_multiset(),
    ensures
        a.filter(p).to_multiset() == b.filter(p).to_multiset(),
{
    lemma_filter_to_multiset(a, p);
    lemma_filter_to_multiset(b, p);
}

// ---- Lemmas ----

/// The texts of the exemplars of exact clustering.
spec fn exemplar_texts(texts: Seq<Seq<char>>) -> Seq<Seq<char>> {
    exemplars(texts.len(), same_key(texts)).map_values(|i: int| texts[i])
}

/// The exemplars hold each text once, and each counts how often its text occurs.
proof fn lemma_exemplar_texts(texts: Seq<Seq<char>>)
    ensures
        forall|text: Seq<char>| #[trigger]
            exemplar_texts(texts).to_multiset().count(text) == if texts.to_multiset().count(text)
                > 0 {
                1nat
            } else {
                0
            },
        forall|k: int|
            0 <= k < exemplar_texts(texts).len() ==> (#[trigger] exact_clusters(texts)[k]).1
                == texts.to_multiset().count(exemplar_texts(texts)[k]),
{
    let n = texts.len();
    let alike = same_key(texts);
    let e = exemplars(n, alike);
    let x = exemplar_texts(texts);
    lemma_exemplars_ordered(n, alike);
    texts.to_multiset_ensures();
    x.to_multiset_ensures();
    assert forall|j: int, k: int| 0 <= j < k < x.len() implies x[j] != x[k] by {
        law_exemplars_apart(n, alike, j, k);
        assert(clusters(n, alike)[j].0 == e[j] && clusters(n, alike)[k].0 == e[k]);
    }
    assert(x.no_duplicates());
    x.lemma_multiset_has_no_duplicates();
    assert forall|text: Seq<char>| #[trigger]
        x.to_multiset().count(text) == if texts.to_multiset().count(text) > 0 {
            1nat
        } else {
            0
        } by {
        if texts.contains(text) {
            let i = choose|i: int| 0 <= i < n && texts[i] == text;
            let k = lemma_belongs(n, alike, i);
            assert(x[k] == text);
            assert(x.contains(text));
            assert(x.to_multiset().contains(text));
        } else if x.contains(text) {
            let k = choose|k: int| 0 <= k < x.len() && x[k] == text;
            assert(texts[e[k]] == text);
        }
    }
    assert forall|k: int| 0 <= k < x.len() implies (#[trigger] exact_clusters(texts)[k]).1
        == texts.to_multiset().count(x[k]) by {
        lemma_members_are_occurrences(texts, n, k);
        assert(texts.take(n as int) =~= texts);
    }
}

/// Among the first `m` lines, those belong to an exemplar whose text is that of the exemplar.
proof fn lemma_members_are_occurrences(texts: Seq<Seq<char>>, m: nat, k: int)
    requires
        m <= texts.len(),
        0 <= k < exact_clusters(texts).len(),
    ensures
        members(m, exemplars(texts.len(), same_key(texts)), same_key(texts), k) == texts.take(
            m as int,
        ).to_multiset().count(exemplar_texts(texts)[k]),
    decreases m,
{
    let n = texts.len();
    let alike = same_key(texts);
    let e = exemplars(n, alike);
    texts.take(m as int).to_multiset_ensures();
    if m == 0 {
        assert(!texts.take(0).contains(exemplar_texts(texts)[k]));
    } else {
        let i = m - 1;
        lemma_members_are_occurrences(texts, (m - 1) as nat, k);
        lemma_exemplars_ordered(n, alike);
        law_no_cluster_empty(n, alike, k);
        law_exact_clusters_are_equal_texts(texts, e[k], i, k);
        assert(texts.take(m as int) =~= texts.take(i).push(texts[i]));
        to_multiset_build(texts.take(i), texts[i]);
    }
}

/// Counts that are the same, in whatever order, are the same in that of the ranking.
proof fn lemma_ranked_counts(a: Seq<(int, int)>, b: Seq<(int, int)>)
    requires
        counts(a).to_multiset() == counts(b).to_multiset(),
    ensures
        counts(ranked(a)) == counts(ranked(b)),
{
    let (x, y) = (counts(ranked(a)), counts(ranked(b)));
    let falling = |i: int, j: int| i >= j;
    let count = |c: (int, int)| c.1;
    law_ranked(a);
    law_ranked(b);
    lemma_map_keeps_permutation(ranked(a), a, count);
    lemma_map_keeps_permutation(ranked(b), b, count);
    assert forall|i: int, j: int| 0 <= i < j < x.len() implies #[trigger] falling(x[i], x[j]) by {
        assert(goes_before(ranked(a)[i], ranked(a)[j]));
    }
    assert forall|i: int, j: int| 0 <= i < j < y.len() implies #[trigger] falling(y[i], y[j]) by {
        assert(goes_before(ranked(b)[i], ranked(b)[j]));
    }
    assert(total_ordering(falling));
    assert(sorted_by(x, falling) && sorted_by(y, falling));
    lemma_sorted_unique(x, y, falling);
}

/// Mapping keeps items the same that are the same in another order.
pub proof fn lemma_map_keeps_permutation<A, B>(a: Seq<A>, b: Seq<A>, f: spec_fn(A) -> B)
    requires
        a.to_multiset() == b.to_multiset(),
    ensures
        a.map_values(f).to_multiset() == b.map_values(f).to_multiset(),
    decreases a.len(),
{
    a.to_multiset_ensures();
    b.to_multiset_ensures();
    if a.len() == 0 {
        assert(a.map_values(f) =~= b.map_values(f));
    } else {
        let last = a.last();
        assert(a.contains(last));
        assert(b.to_multiset().count(last) > 0);
        assert(b.contains(last));
        let p = choose|p: int| 0 <= p < b.len() && b[p] == last;
        assert(a.remove(a.len() - 1) =~= a.drop_last());
        lemma_map_keeps_permutation(a.drop_last(), b.remove(p), f);
        let (x, y) = (a.map_values(f), b.map_values(f));
        x.to_multiset_ensures();
        y.to_multiset_ensures();
        assert(x.remove(x.len() - 1) =~= a.drop_last().map_values(f));
        assert(y.remove(p) =~= b.remove(p).map_values(f));
        assert(x.to_multiset() =~= x.to_multiset().remove(f(last)).insert(f(last)));
        assert(x.contains(x[x.len() - 1]));
        assert(y.contains(y[p]));
        assert(y.to_multiset() =~= y.to_multiset().remove(f(last)).insert(f(last)));
    }
}

proof fn lemma_filter_to_multiset<A>(s: Seq<A>, p: spec_fn(A) -> bool)
    ensures
        s.filter(p).to_multiset() == s.to_multiset().filter(p),
    decreases s.len(),
{
    reveal(Seq::filter);
    s.to_multiset_ensures();
    if s.len() == 0 {
        assert(s.filter(p).to_multiset() =~= s.to_multiset().filter(p));
    } else {
        let front = s.drop_last();
        lemma_filter_to_multiset(front, p);
        assert(s =~= front.push(s.last()));
        to_multiset_build(front, s.last());
        to_multiset_build(front.filter(p), s.last());
        assert(s.filter(p).to_multiset() =~= s.to_multiset().filter(p));
    }
}

} // verus!
