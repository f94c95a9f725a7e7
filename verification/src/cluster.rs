//! Greedy clustering: what it means to group lines, one after the other, round the first line
//! of each group.
//!
//! Lines are known by their index. `alike(j, i)` says whether line `i` may join the group of
//! the earlier line `j`; fuzzy and exact deduplication differ in nothing but this relation.

use vstd::prelude::*;

verus! {

// ---- Meaning ----

/// The exemplars among the first `n` lines: the lines that are not alike to any earlier
/// exemplar, in order.
pub open spec fn exemplars(n: nat, alike: spec_fn(int, int) -> bool) -> Seq<int>
    decreases n,
{
    if n == 0 {
        Seq::empty()
    } else {
        let earlier = exemplars((n - 1) as nat, alike);
        if exists|k: int| 0 <= k < earlier.len() && alike(#[trigger] earlier[k], n - 1) {
            earlier
        } else {
            earlier.push(n - 1)
        }
    }
}

/// Exemplar number `k` can take line `i` in: it is that line, or alike to it.
pub open spec fn accepts(e: Seq<int>, alike: spec_fn(int, int) -> bool, k: int, i: int) -> bool {
    e[k] == i || alike(e[k], i)
}

/// Line `i` belongs to exemplar number `k`: the first that accepts it.
pub open spec fn belongs(e: Seq<int>, alike: spec_fn(int, int) -> bool, k: int, i: int) -> bool {
    &&& 0 <= k < e.len()
    &&& accepts(e, alike, k, i)
    &&& forall|j: int| 0 <= j < k ==> !#[trigger] accepts(e, alike, j, i)
}

/// How many of the first `n` lines belong to exemplar number `k`.
pub open spec fn members(n: nat, e: Seq<int>, alike: spec_fn(int, int) -> bool, k: int) -> int
    decreases n,
{
    if n == 0 {
        0
    } else {
        members((n - 1) as nat, e, alike, k) + if belongs(e, alike, k, n - 1) {
            1int
        } else {
            0
        }
    }
}

/// The clusters of `n` lines: each exemplar, in order, with the number of lines that belong to
/// it.
pub open spec fn clusters(n: nat, alike: spec_fn(int, int) -> bool) -> Seq<(int, int)> {
    let e = exemplars(n, alike);
    Seq::new(e.len(), |k: int| (e[k], members(n, e, alike, k)))
}

/// The pairs as mathematical integers.
pub open spec fn as_ints(pairs: Seq<(usize, usize)>) -> Seq<(int, int)> {
    Seq::new(pairs.len(), |i: int| (pairs[i].0 as int, pairs[i].1 as int))
}

// ---- Lemmas ----

/// Exemplars are lines, and stand in order.
pub proof fn lemma_exemplars_ordered(n: nat, alike: spec_fn(int, int) -> bool)
    ensures
        exemplars(n, alike).len() <= n,
        forall|k: int|
            0 <= k < exemplars(n, alike).len() ==> 0 <= #[trigger] exemplars(n, alike)[k] < n,
        forall|j: int, k: int|
            0 <= j < k < exemplars(n, alike).len() ==> #[trigger] exemplars(n, alike)[j]
                < #[trigger] exemplars(n, alike)[k],
    decreases n,
{
    if n > 0 {
        lemma_exemplars_ordered((n - 1) as nat, alike);
    }
}

/// Some exemplar accepts line `i`.
pub proof fn lemma_accepted(n: nat, alike: spec_fn(int, int) -> bool, i: int) -> (k: int)
    requires
        0 <= i < n,
    ensures
        0 <= k < exemplars(n, alike).len(),
        accepts(exemplars(n, alike), alike, k, i),
        exemplars(n, alike)[k] <= i,
    decreases n,
{
    let e = exemplars(n, alike);
    let earlier = exemplars((n - 1) as nat, alike);
    lemma_exemplars_ordered((n - 1) as nat, alike);
    if i < n - 1 {
        let k = lemma_accepted((n - 1) as nat, alike, i);
        assert(e[k] == earlier[k]);
        k
    } else if exists|k: int| 0 <= k < earlier.len() && alike(#[trigger] earlier[k], n - 1) {
        choose|k: int| 0 <= k < earlier.len() && alike(#[trigger] earlier[k], n - 1)
    } else {
        earlier.len() as int
    }
}

/// Of the exemplars up to one that accepts line `i`, one is the first to accept it.
proof fn lemma_first_accepting(e: Seq<int>, alike: spec_fn(int, int) -> bool, k: int, i: int) -> (
    h: int)
    requires
        0 <= k < e.len(),
        accepts(e, alike, k, i),
    ensures
        0 <= h <= k,
        belongs(e, alike, h, i),
    decreases k,
{
    if exists|j: int| 0 <= j < k && #[trigger] accepts(e, alike, j, i) {
        let j = choose|j: int| 0 <= j < k && #[trigger] accepts(e, alike, j, i);
        lemma_first_accepting(e, alike, j, i)
    } else {
        k
    }
}

/// Every line belongs to an exemplar, which is that line or an earlier one.
pub proof fn lemma_belongs(n: nat, alike: spec_fn(int, int) -> bool, i: int) -> (k: int)
    requires
        0 <= i < n,
    ensures
        belongs(exemplars(n, alike), alike, k, i),
        exemplars(n, alike)[k] <= i,
{
    let e = exemplars(n, alike);
    let a = lemma_accepted(n, alike, i);
    let k = lemma_first_accepting(e, alike, a, i);
    lemma_exemplars_ordered(n, alike);
    assert(k < a ==> e[k] < e[a]);
    k
}

/// A line belongs to one exemplar only.
pub proof fn lemma_belongs_once(
    e: Seq<int>,
    alike: spec_fn(int, int) -> bool,
    j: int,
    k: int,
    i: int,
)
    requires
        belongs(e, alike, j, i),
        belongs(e, alike, k, i),
    ensures
        j == k,
{
}

/// No more lines belong to an exemplar than there are.
pub proof fn lemma_members_bound(n: nat, e: Seq<int>, alike: spec_fn(int, int) -> bool, k: int)
    ensures
        0 <= members(n, e, alike, k) <= n,
    decreases n,
{
    if n > 0 {
        lemma_members_bound((n - 1) as nat, e, alike, k);
    }
}

/// A further exemplar changes nothing for those before it.
proof fn lemma_members_push(
    n: nat,
    e: Seq<int>,
    alike: spec_fn(int, int) -> bool,
    k: int,
    new: int,
)
    requires
        0 <= k < e.len(),
    ensures
        members(n, e.push(new), alike, k) == members(n, e, alike, k),
    decreases n,
{
    if n > 0 {
        lemma_members_push((n - 1) as nat, e, alike, k, new);
        let i = n - 1;
        let f = e.push(new);
        assert forall|j: int| 0 <= j < e.len() implies #[trigger] accepts(f, alike, j, i)
            == accepts(e, alike, j, i) by {}
        if belongs(e, alike, k, i) {
            assert(belongs(f, alike, k, i));
        }
        if belongs(f, alike, k, i) {
            assert forall|j: int| 0 <= j < k implies !#[trigger] accepts(e, alike, j, i) by {
                assert(!accepts(f, alike, j, i));
            }
        }
    }
}

/// No line before a new exemplar belongs to it.
proof fn lemma_members_new(n: nat, m: nat, alike: spec_fn(int, int) -> bool, new: int)
    requires
        m <= n,
    ensures
        members(m, exemplars(n, alike).push(new), alike, exemplars(n, alike).len() as int) == 0,
    decreases m,
{
    if m > 0 {
        lemma_members_new(n, (m - 1) as nat, alike, new);
        let e = exemplars(n, alike);
        let a = lemma_accepted(n, alike, m - 1);
        assert(accepts(e.push(new), alike, a, m - 1));
    }
}

/// The next line joins the first exemplar that it is alike to.
pub proof fn lemma_clusters_join(n: nat, alike: spec_fn(int, int) -> bool, k: int)
    requires
        0 <= k < exemplars(n, alike).len(),
        alike(exemplars(n, alike)[k], n as int),
        forall|j: int| 0 <= j < k ==> !alike(#[trigger] exemplars(n, alike)[j], n as int),
    ensures
        exemplars(n + 1, alike) == exemplars(n, alike),
        clusters(n + 1, alike) == clusters(n, alike).update(
            k,
            (clusters(n, alike)[k].0, clusters(n, alike)[k].1 + 1),
        ),
{
    let e = exemplars(n, alike);
    lemma_exemplars_ordered(n, alike);
    assert(exemplars(n + 1, alike) == e);
    assert forall|j: int| 0 <= j < k implies !#[trigger] accepts(e, alike, j, n as int) by {
        assert(e[j] < n);
    }
    assert(belongs(e, alike, k, n as int));
    assert forall|j: int| 0 <= j < e.len() implies #[trigger] members(n + 1, e, alike, j)
        == members(n, e, alike, j) + if j == k {
        1int
    } else {
        0
    } by {
        if j != k && belongs(e, alike, j, n as int) {
            lemma_belongs_once(e, alike, j, k, n as int);
        }
    }
    assert(clusters(n + 1, alike) =~= clusters(n, alike).update(
        k,
        (clusters(n, alike)[k].0, clusters(n, alike)[k].1 + 1),
    ));
}

/// The next line becomes an exemplar where it is alike to none.
pub proof fn lemma_clusters_new(n: nat, alike: spec_fn(int, int) -> bool)
    requires
        forall|j: int|
            0 <= j < exemplars(n, alike).len() ==> !alike(
                #[trigger] exemplars(n, alike)[j],
                n as int,
            ),
    ensures
        exemplars(n + 1, alike) == exemplars(n, alike).push(n as int),
        clusters(n + 1, alike) == clusters(n, alike).push((n as int, 1)),
{
    let e = exemplars(n, alike);
    let f = e.push(n as int);
    lemma_exemplars_ordered(n, alike);
    assert(exemplars(n + 1, alike) == f);
    assert forall|j: int| 0 <= j < e.len() implies !#[trigger] accepts(f, alike, j, n as int) by {
        assert(f[j] == e[j]);
    }
    assert(belongs(f, alike, e.len() as int, n as int));
    lemma_members_new(n, n, alike, n as int);
    assert forall|j: int| 0 <= j < e.len() implies #[trigger] members(n + 1, f, alike, j)
        == members(n, e, alike, j) by {
        lemma_members_push(n, e, alike, j, n as int);
        assert(accepts(f, alike, j, n as int) == false);
    }
    assert(clusters(n + 1, alike) =~= clusters(n, alike).push((n as int, 1)));
}

} // verus!
