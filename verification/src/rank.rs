//! Ranking of clusters: the largest first, those of one size in the order of their exemplars.

use vstd::prelude::*;
use vstd::relations::{sorted_by, total_ordering};
use vstd::seq_lib::{lemma_multiset_commutative, lemma_sorted_unique, to_multiset_build};
use vstd::slice::slice_subrange;

use crate::cluster::as_ints;

verus! {

// ---- Meaning ----

/// Cluster `a` goes before cluster `b`: it counts more lines, or as many and its exemplar does
/// not come later.
pub open spec fn goes_before(a: (int, int), b: (int, int)) -> bool {
    a.1 > b.1 || (a.1 == b.1 && a.0 <= b.0)
}

/// `goes_before` as a relation.
pub open spec fn rank_order() -> spec_fn((int, int), (int, int)) -> bool {
    |a: (int, int), b: (int, int)| goes_before(a, b)
}

/// The clusters, sorted by rank.
pub open spec fn ranked(clusters: Seq<(int, int)>) -> Seq<(int, int)> {
    clusters.sort_by(rank_order())
}

// ---- Laws ----

/// Ranking keeps the clusters as they are and puts them in descending order of their counts,
/// those with equal counts in ascending order of their exemplars.
pub proof fn law_ranked(clusters: Seq<(int, int)>)
    ensures
        ranked(clusters).to_multiset() == clusters.to_multiset(),
        ranked(clusters).len() == clusters.len(),
        forall|i: int, j: int|
            0 <= i < j < clusters.len() ==> goes_before(
                #[trigger] ranked(clusters)[i],
                #[trigger] ranked(clusters)[j],
            ),
{
    lemma_rank_order_total();
    clusters.lemma_sort_by_ensures(rank_order());
    clusters.to_multiset_ensures();
    let r = ranked(clusters);
    r.to_multiset_ensures();
    assert forall|i: int, j: int| 0 <= i < j < clusters.len() implies goes_before(
        #[trigger] r[i],
        #[trigger] r[j],
    ) by {
        assert(rank_order()(r[i], r[j]));
    }
}

/// There is only one such order: a list of the same clusters that stands in it is the ranking.
pub proof fn law_ranked_unique(clusters: Seq<(int, int)>, r: Seq<(int, int)>)
    requires
        r.to_multiset() == clusters.to_multiset(),
        forall|i: int, j: int|
            0 <= i < j < r.len() ==> goes_before(#[trigger] r[i], #[trigger] r[j]),
    ensures
        r == ranked(clusters),
{
    lemma_rank_order_total();
    clusters.lemma_sort_by_ensures(rank_order());
    assert(sorted_by(r, rank_order()));
    lemma_sorted_unique(r, ranked(clusters), rank_order());
}

// ---- Lemmas ----

proof fn lemma_rank_order_total()
    ensures
        total_ordering(rank_order()),
{
}

// ---- Functions ----

/// Merges two ranked lists.
fn merge(a: &Vec<(usize, usize)>, b: &Vec<(usize, usize)>) -> (r: Vec<(usize, usize)>)
    requires
        sorted_by(as_ints(a@), rank_order()),
        sorted_by(as_ints(b@), rank_order()),
    ensures
        sorted_by(as_ints(r@), rank_order()),
        as_ints(r@).to_multiset() == as_ints(a@).to_multiset().add(as_ints(b@).to_multiset()),
{
    let mut out: Vec<(usize, usize)> = Vec::new();
    let mut i: usize = 0;
    let mut j: usize = 0;
    let ghost x = as_ints(a@);
    let ghost y = as_ints(b@);
    proof {
        assert(as_ints(out@) =~= x.take(0));
        assert(y.take(0) =~= x.take(0));
        x.take(0).to_multiset_ensures();
        assert(as_ints(out@).to_multiset() =~= x.take(0).to_multiset().add(
            y.take(0).to_multiset(),
        ));
    }
    while i < a.len() || j < b.len()
        invariant
            x == as_ints(a@),
            y == as_ints(b@),
            i <= a@.len(),
            j <= b@.len(),
            sorted_by(x, rank_order()),
            sorted_by(y, rank_order()),
            sorted_by(as_ints(out@), rank_order()),
            forall|k: int, p: int|
                0 <= k < out@.len() && i <= p < x.len() ==> goes_before(
                    #[trigger] as_ints(out@)[k],
                    #[trigger] x[p],
                ),
            forall|k: int, p: int|
                0 <= k < out@.len() && j <= p < y.len() ==> goes_before(
                    #[trigger] as_ints(out@)[k],
                    #[trigger] y[p],
                ),
            as_ints(out@).to_multiset() == x.take(i as int).to_multiset().add(
                y.take(j as int).to_multiset(),
            ),
        decreases a@.len() - i + b@.len() - j,
    {
        let ghost before = as_ints(out@);
        let take_left = j == b.len() || (i < a.len() && (a[i].1 > b[j].1 || (a[i].1 == b[j].1
            && a[i].0 <= b[j].0)));
        let next = if take_left {
            a[i]
        } else {
            b[j]
        };
        let ghost n = (next.0 as int, next.1 as int);
        proof {
            to_multiset_build(before, n);
            if take_left {
                assert(n == x[i as int]);
                to_multiset_build(x.take(i as int), n);
                assert(x.take(i + 1) =~= x.take(i as int).push(n));
                assert forall|p: int| i < p < x.len() implies goes_before(n, #[trigger] x[p]) by {
                    assert(rank_order()(x[i as int], x[p]));
                }
                assert forall|p: int| j <= p < y.len() implies goes_before(n, #[trigger] y[p]) by {
                    assert(j < p ==> rank_order()(y[j as int], y[p]));
                }
            } else {
                assert(n == y[j as int]);
                to_multiset_build(y.take(j as int), n);
                assert(y.take(j + 1) =~= y.take(j as int).push(n));
                assert forall|p: int| j < p < y.len() implies goes_before(n, #[trigger] y[p]) by {
                    assert(rank_order()(y[j as int], y[p]));
                }
                assert forall|p: int| i <= p < x.len() implies goes_before(n, #[trigger] x[p]) by {
                    assert(i < p ==> rank_order()(x[i as int], x[p]));
                }
            }
        }
        out.push(next);
        assert(as_ints(out@) =~= before.push(n));
        assert forall|k: int, l: int| 0 <= k < l < out@.len() implies #[trigger] rank_order()(
            as_ints(out@)[k],
            as_ints(out@)[l],
        ) by {
            if l < before.len() {
                assert(rank_order()(before[k], before[l]));
            } else {
                assert(goes_before(before[k], n));
            }
        }
        if take_left {
            i += 1;
        } else {
            j += 1;
        }
        assert(as_ints(out@).to_multiset() =~= x.take(i as int).to_multiset().add(
            y.take(j as int).to_multiset(),
        ));
    }
    assert(x.take(i as int) =~= x);
    assert(y.take(j as int) =~= y);
    out
}

/// Sorts clusters, given as `(exemplar_index, count)` pairs, by count descending; clusters with
/// equal counts come in the order of their exemplars.
pub fn sort_by_count(clusters: &[(usize, usize)]) -> (r: Vec<(usize, usize)>)
    ensures
        as_ints(r@) == ranked(as_ints(clusters@)),
    decreases clusters@.len(),
{
    let ghost all = as_ints(clusters@);
    if clusters.len() <= 1 {
        let mut out: Vec<(usize, usize)> = Vec::new();
        if clusters.len() == 1 {
            out.push(clusters[0]);
        }
        proof {
            assert(as_ints(out@) =~= all);
            law_ranked_unique(all, all);
        }
        return out;
    }
    let mid = clusters.len() / 2;
    let front = slice_subrange(clusters, 0, mid);
    let back = slice_subrange(clusters, mid, clusters.len());
    let a = sort_by_count(front);
    let b = sort_by_count(back);
    proof {
        lemma_rank_order_total();
        as_ints(front@).lemma_sort_by_ensures(rank_order());
        as_ints(back@).lemma_sort_by_ensures(rank_order());
    }
    let r = merge(&a, &b);
    proof {
        assert(all =~= as_ints(front@) + as_ints(back@));
        lemma_multiset_commutative(as_ints(front@), as_ints(back@));
        assert forall|i: int, j: int| 0 <= i < j < r@.len() implies goes_before(
            #[trigger] as_ints(r@)[i],
            #[trigger] as_ints(r@)[j],
        ) by {
            assert(rank_order()(as_ints(r@)[i], as_ints(r@)[j]));
        }
        law_ranked_unique(all, as_ints(r@));
    }
    r
}

} // verus!
