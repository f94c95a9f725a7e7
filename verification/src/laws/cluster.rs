//! What clustering promises, whatever relation it groups by.

use vstd::prelude::*;

use crate::cluster::{
    accepts, belongs, clusters, exemplars, lemma_accepted, lemma_belongs, lemma_belongs_once,
    lemma_clusters_join, lemma_clusters_new, lemma_exemplars_ordered, lemma_members_bound, members,
};

verus! {

/// The sum of the counts.
pub open spec fn total(clusters: Seq<(int, int)>) -> int
    decreases clusters.len(),
{
    if clusters.len() == 0 {
        0
    } else {
        total(clusters.drop_last()) + clusters.last().1
    }
}

/// No line is lost and none is counted twice: the counts add up to the number of lines.
pub proof fn law_counts_add_up(n: nat, alike: spec_fn(int, int) -> bool)
    ensures
        total(clusters(n, alike)) == n,
    decreases n,
{
    if n > 0 {
        let m = (n - 1) as nat;
        let c = clusters(m, alike);
        let e = exemplars(m, alike);
        law_counts_add_up(m, alike);
        if exists|k: int| 0 <= k < e.len() && alike(#[trigger] e[k], m as int) {
            let k = lemma_first_alike(e, alike, m as int);
            lemma_clusters_join(m, alike, k);
            lemma_total_update(c, k, (c[k].0, c[k].1 + 1));
        } else {
            lemma_clusters_new(m, alike);
            assert(c.push((m as int, 1)).drop_last() =~= c);
        }
    }
}

/// Every line belongs to one cluster and no other; the cluster's exemplar is that line or an
/// earlier one, and in the latter case the two are alike.
pub proof fn law_every_line_in_one_cluster(n: nat, alike: spec_fn(int, int) -> bool, i: int)
    requires
        0 <= i < n,
    ensures
        exists|k: int|
            #![trigger exemplars(n, alike)[k]]
            {
                &&& belongs(exemplars(n, alike), alike, k, i)
                &&& exemplars(n, alike)[k] == i || (exemplars(n, alike)[k] < i && alike(
                    exemplars(n, alike)[k],
                    i,
                ))
                &&& forall|j: int| #[trigger] belongs(exemplars(n, alike), alike, j, i) ==> j == k
            },
{
    let e = exemplars(n, alike);
    let k = lemma_belongs(n, alike, i);
    assert forall|j: int| #[trigger] belongs(e, alike, j, i) implies j == k by {
        lemma_belongs_once(e, alike, j, k, i);
    }
    assert(e[k] == e[k]);
}

/// Exemplars stand apart: none is alike to an earlier one.
pub proof fn law_exemplars_apart(n: nat, alike: spec_fn(int, int) -> bool, j: int, k: int)
    requires
        0 <= j < k < clusters(n, alike).len(),
    ensures
        clusters(n, alike)[j].0 < clusters(n, alike)[k].0,
        !alike(clusters(n, alike)[j].0, clusters(n, alike)[k].0),
    decreases n,
{
    let earlier = exemplars((n - 1) as nat, alike);
    lemma_exemplars_ordered(n, alike);
    if k < earlier.len() {
        law_exemplars_apart((n - 1) as nat, alike, j, k);
    } else {
        assert(exemplars(n, alike)[j] == earlier[j]);
    }
}

/// No cluster is empty: an exemplar belongs to its own.
pub proof fn law_no_cluster_empty(n: nat, alike: spec_fn(int, int) -> bool, k: int)
    requires
        0 <= k < clusters(n, alike).len(),
    ensures
        belongs(exemplars(n, alike), alike, k, clusters(n, alike)[k].0),
        clusters(n, alike)[k].1 >= 1,
{
    let e = exemplars(n, alike);
    lemma_exemplars_ordered(n, alike);
    assert forall|j: int| 0 <= j < k implies !#[trigger] accepts(e, alike, j, e[k]) by {
        law_exemplars_apart(n, alike, j, k);
    }
    lemma_members_positive(n, e, alike, k, e[k]);
}

/// There are no more clusters than lines, and none only where there are no lines. The first
/// line is the first exemplar.
pub proof fn law_number_of_clusters(n: nat, alike: spec_fn(int, int) -> bool)
    ensures
        clusters(n, alike).len() <= n,
        clusters(n, alike).len() == 0 <==> n == 0,
        n > 0 ==> clusters(n, alike)[0].0 == 0,
{
    lemma_exemplars_ordered(n, alike);
    if n > 0 {
        let k = lemma_accepted(n, alike, 0);
        assert(k > 0 ==> exemplars(n, alike)[0] < exemplars(n, alike)[k]);
    }
}

/// Lines that are all alike make one cluster.
pub proof fn law_all_alike(n: nat, alike: spec_fn(int, int) -> bool)
    requires
        n > 0,
        forall|j: int, i: int| 0 <= j < i < n ==> #[trigger] alike(j, i),
    ensures
        clusters(n, alike) == seq![(0int, n as int)],
    decreases n,
{
    let m = (n - 1) as nat;
    if m == 0 {
        lemma_clusters_new(0, alike);
        assert(clusters(0, alike) =~= Seq::empty());
        assert(clusters(1, alike) =~= seq![(0int, 1int)]);
    } else {
        law_all_alike(m, alike);
        assert(clusters(m, alike)[0].0 == exemplars(m, alike)[0]);
        assert(alike(0, m as int));
        lemma_clusters_join(m, alike, 0);
        assert(clusters(n, alike) =~= seq![(0int, n as int)]);
    }
}

/// Lines of which no two are alike make a cluster each.
pub proof fn law_none_alike(n: nat, alike: spec_fn(int, int) -> bool)
    requires
        forall|j: int, i: int| 0 <= j < i < n ==> !#[trigger] alike(j, i),
    ensures
        clusters(n, alike) == Seq::new(n, |k: int| (k, 1int)),
    decreases n,
{
    if n > 0 {
        let m = (n - 1) as nat;
        law_none_alike(m, alike);
        lemma_exemplars_ordered(m, alike);
        lemma_clusters_new(m, alike);
    }
    assert(clusters(n, alike) =~= Seq::new(n, |k: int| (k, 1int)));
}

/// Relations that agree on the lines make the same clusters.
pub proof fn law_same_relation_same_clusters(
    n: nat,
    a: spec_fn(int, int) -> bool,
    b: spec_fn(int, int) -> bool,
)
    requires
        forall|j: int, i: int| 0 <= j < i < n ==> #[trigger] a(j, i) == b(j, i),
    ensures
        clusters(n, a) == clusters(n, b),
        exemplars(n, a) == exemplars(n, b),
    decreases n,
{
    if n > 0 {
        let m = (n - 1) as nat;
        let e = exemplars(m, a);
        law_same_relation_same_clusters(m, a, b);
        lemma_exemplars_ordered(m, a);
        if exists|k: int| 0 <= k < e.len() && a(#[trigger] e[k], m as int) {
            let k = lemma_first_alike(e, a, m as int);
            lemma_clusters_join(m, a, k);
            assert(a(e[k], m as int) == b(e[k], m as int));
            assert forall|j: int| 0 <= j < k implies !b(#[trigger] e[j], m as int) by {
                assert(a(e[j], m as int) == b(e[j], m as int));
            }
            lemma_clusters_join(m, b, k);
        } else {
            assert forall|j: int| 0 <= j < e.len() implies !b(#[trigger] e[j], m as int) by {
                assert(a(e[j], m as int) == b(e[j], m as int));
            }
            lemma_clusters_new(m, a);
            lemma_clusters_new(m, b);
        }
    } else {
        assert(clusters(n, a) =~= clusters(n, b));
    }
}

/// A relation that cannot tell apart what a finer one holds alike makes no more clusters than
/// the finer one, and each of its exemplars is one of the finer clustering too.
pub proof fn law_coarser_makes_fewer_clusters(
    n: nat,
    finer: spec_fn(int, int) -> bool,
    coarser: spec_fn(int, int) -> bool,
)
    requires
        forall|j: int, i: int| 0 <= j < i < n && #[trigger] finer(j, i) ==> coarser(j, i),
        forall|h: int, j: int, i: int|
            0 <= h < j < i < n && #[trigger] finer(j, i) && #[trigger] coarser(h, j) ==> coarser(
                h,
                i,
            ),
    ensures
        clusters(n, coarser).len() <= clusters(n, finer).len(),
        forall|k: int|
            0 <= k < exemplars(n, coarser).len() ==> exemplars(n, finer).contains(
                #[trigger] exemplars(n, coarser)[k],
            ),
    decreases n,
{
    if n > 0 {
        let m = (n - 1) as nat;
        let f = exemplars(m, finer);
        let c = exemplars(m, coarser);
        law_coarser_makes_fewer_clusters(m, finer, coarser);
        lemma_exemplars_ordered(m, finer);
        lemma_exemplars_ordered(m, coarser);
        if exists|k: int| 0 <= k < f.len() && finer(#[trigger] f[k], m as int) {
            let k = choose|k: int| 0 <= k < f.len() && finer(#[trigger] f[k], m as int);
            let a = lemma_accepted(m, coarser, f[k]);
            assert(coarser(c[a], m as int));
            assert(exemplars(n, coarser) == c);
        } else {
            assert(exemplars(n, finer) == f.push(m as int));
            assert forall|k: int| 0 <= k < exemplars(n, coarser).len() implies exemplars(
                n,
                finer,
            ).contains(#[trigger] exemplars(n, coarser)[k]) by {
                if k < c.len() {
                    assert(f.contains(c[k]));
                    let j = choose|j: int| 0 <= j < f.len() && f[j] == c[k];
                    assert(f.push(m as int)[j] == c[k]);
                } else {
                    assert(f.push(m as int)[f.len() as int] == m);
                }
            }
        }
    }
}

/// Counts do not depend on the order in which the clusters stand.
pub proof fn law_order_keeps_total(a: Seq<(int, int)>, b: Seq<(int, int)>)
    requires
        a.to_multiset() == b.to_multiset(),
    ensures
        total(a) == total(b),
    decreases a.len(),
{
    a.to_multiset_ensures();
    b.to_multiset_ensures();
    if a.len() > 0 {
        let last = a.last();
        assert(a.contains(last));
        assert(b.to_multiset().count(last) > 0);
        assert(b.contains(last));
        let p = choose|p: int| 0 <= p < b.len() && b[p] == last;
        assert(a.remove(a.len() - 1) =~= a.drop_last());
        law_order_keeps_total(a.drop_last(), b.remove(p));
        lemma_total_remove(b, p);
    }
}

/// The clusters with each count doubled.
pub open spec fn doubled(clusters: Seq<(int, int)>) -> Seq<(int, int)> {
    clusters.map_values(|c: (int, int)| (c.0, 2 * c.1))
}

/// Lines that come a second time double the counts and change nothing else, where every line is
/// alike to itself and the second occurrence of a line is alike to what the first is alike to.
pub proof fn law_lines_twice(
    n: nat,
    once: spec_fn(int, int) -> bool,
    twice: spec_fn(int, int) -> bool,
)
    requires
        forall|i: int| 0 <= i < n ==> #[trigger] once(i, i),
        forall|j: int, i: int| 0 <= j < n && 0 <= i < n ==> #[trigger] twice(j, i) == once(j, i),
        forall|j: int, i: int|
            0 <= j < n && 0 <= i < n ==> #[trigger] once(j, i) == twice(j, n + i),
    ensures
        exemplars(2 * n, twice) == exemplars(n, once),
        clusters(2 * n, twice) == doubled(clusters(n, once)),
{
    let e = exemplars(n, once);
    law_same_relation_same_clusters(n, twice, once);
    lemma_exemplars_ordered(n, once);
    lemma_exemplars_twice(n, n, once, twice);
    assert forall|k: int| 0 <= k < e.len() implies #[trigger] members(2 * n, e, twice, k) == 2
        * members(n, e, once, k) by {
        lemma_members_twice(n, n, once, twice, k);
        assert(clusters(n, twice)[k] == clusters(n, once)[k]);
    }
    assert(n + n == 2 * n);
    assert(clusters(2 * n, twice) =~= doubled(clusters(n, once)));
}

// ---- Lemmas ----

/// None of the first `m` lines that come a second time is an exemplar.
proof fn lemma_exemplars_twice(
    n: nat,
    m: nat,
    once: spec_fn(int, int) -> bool,
    twice: spec_fn(int, int) -> bool,
)
    requires
        m <= n,
        exemplars(n, twice) == exemplars(n, once),
        forall|i: int| 0 <= i < n ==> #[trigger] once(i, i),
        forall|j: int, i: int|
            0 <= j < n && 0 <= i < n ==> #[trigger] once(j, i) == twice(j, n + i),
    ensures
        exemplars(n + m, twice) == exemplars(n, once),
    decreases m,
{
    if m > 0 {
        let e = exemplars(n, once);
        let i = m - 1;
        lemma_exemplars_twice(n, (m - 1) as nat, once, twice);
        lemma_exemplars_ordered(n, once);
        let a = lemma_accepted(n, once, i);
        assert(once(e[a], i));
        assert(twice(e[a], n + i));
    }
}

/// As many lines belong to an exemplar among the first `m` lines as among the `m` lines that
/// come a second time.
proof fn lemma_members_twice(
    n: nat,
    m: nat,
    once: spec_fn(int, int) -> bool,
    twice: spec_fn(int, int) -> bool,
    k: int,
)
    requires
        m <= n,
        0 <= k < exemplars(n, once).len(),
        forall|i: int| 0 <= i < n ==> #[trigger] once(i, i),
        forall|j: int, i: int| 0 <= j < n && 0 <= i < n ==> #[trigger] twice(j, i) == once(j, i),
        forall|j: int, i: int|
            0 <= j < n && 0 <= i < n ==> #[trigger] once(j, i) == twice(j, n + i),
    ensures
        members(n + m, exemplars(n, once), twice, k) == members(n, exemplars(n, once), twice, k)
            + members(m, exemplars(n, once), twice, k),
    decreases m,
{
    if m > 0 {
        let e = exemplars(n, once);
        let i = m - 1;
        lemma_members_twice(n, (m - 1) as nat, once, twice, k);
        lemma_exemplars_ordered(n, once);
        assert forall|j: int| 0 <= j < e.len() implies #[trigger] accepts(e, twice, j, n + i)
            == accepts(e, twice, j, i) by {
            assert(once(e[j], i) == twice(e[j], n + i));
            assert(twice(e[j], i) == once(e[j], i));
        }
        assert(belongs(e, twice, k, n + i) == belongs(e, twice, k, i)) by {
            assert(accepts(e, twice, k, n + i) == accepts(e, twice, k, i));
            if belongs(e, twice, k, n + i) {
                assert forall|j: int| 0 <= j < k implies !#[trigger] accepts(e, twice, j, i) by {
                    assert(!accepts(e, twice, j, n + i));
                }
            }
        }
        assert((n + m - 1) as nat == n + (m - 1) as nat);
    }
}


proof fn lemma_total_update(c: Seq<(int, int)>, k: int, new: (int, int))
    requires
        0 <= k < c.len(),
    ensures
        total(c.update(k, new)) == total(c) - c[k].1 + new.1,
    decreases c.len(),
{
    let d = c.update(k, new);
    if k < c.len() - 1 {
        lemma_total_update(c.drop_last(), k, new);
        assert(d.drop_last() =~= c.drop_last().update(k, new));
    } else {
        assert(d.drop_last() =~= c.drop_last());
    }
}

proof fn lemma_total_remove(c: Seq<(int, int)>, k: int)
    requires
        0 <= k < c.len(),
    ensures
        total(c.remove(k)) == total(c) - c[k].1,
    decreases c.len(),
{
    let d = c.remove(k);
    if k < c.len() - 1 {
        lemma_total_remove(c.drop_last(), k);
        assert(d.drop_last() =~= c.drop_last().remove(k));
    } else {
        assert(d =~= c.drop_last());
    }
}

proof fn lemma_members_positive(
    n: nat,
    e: Seq<int>,
    alike: spec_fn(int, int) -> bool,
    k: int,
    i: int,
)
    requires
        0 <= i < n,
        belongs(e, alike, k, i),
    ensures
        members(n, e, alike, k) >= 1,
    decreases n,
{
    lemma_members_bound((n - 1) as nat, e, alike, k);
    if i < n - 1 {
        lemma_members_positive((n - 1) as nat, e, alike, k, i);
    }
}

/// Where an exemplar is alike to line `i`, one is the first that is.
proof fn lemma_first_alike(e: Seq<int>, alike: spec_fn(int, int) -> bool, i: int) -> (k: int)
    requires
        exists|k: int| 0 <= k < e.len() && alike(#[trigger] e[k], i),
    ensures
        0 <= k < e.len(),
        alike(e[k], i),
        forall|j: int| 0 <= j < k ==> !alike(#[trigger] e[j], i),
    decreases e.len(),
{
    let last = choose|k: int| 0 <= k < e.len() && alike(#[trigger] e[k], i);
    let front = e.take(last);
    if exists|k: int| 0 <= k < front.len() && alike(#[trigger] front[k], i) {
        let k = lemma_first_alike(front, alike, i);
        assert forall|j: int| 0 <= j < k implies !alike(#[trigger] e[j], i) by {
            assert(front[j] == e[j]);
        }
        k
    } else {
        assert forall|j: int| 0 <= j < last implies !alike(#[trigger] e[j], i) by {
            assert(front[j] == e[j]);
        }
        last
    }
}

} // verus!
