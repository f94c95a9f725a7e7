//! What goes into a sketch, what similarity measures, and how a further line changes the clusters.

use std::hash::DefaultHasher;
use vstd::prelude::*;
use vstd::std_specs::hash::DefaultHasherAdditionalSpecFns;

use crate::cluster::{
    clusters, exemplars, lemma_clusters_join, lemma_clusters_new, lemma_exemplars_ordered,
};
use crate::laws::cluster::law_same_relation_same_clusters;
use crate::laws::primitives::{
    law_text_without_white_space_is_one_word, law_white_space_parts_words,
};
use crate::laws::sketch::law_similarity_full;
use crate::log_cmd::{exact_clusters, same_key};
use crate::sketch::{
    agreeing, bit, folded, line_sketch, line_sketches, rotated, similar, similarity,
    sketched_clusters, str_writes, token_hash, token_hashes, LineSketch,
};
use crate::text::{white_space, words_of};

verus! {

// ---- Sketches ----

/// A line that is one word has the hash of that whole word as its sketch, whatever its length.
pub proof fn law_sketch_of_one_word(word: Seq<char>)
    requires
        word.len() > 0,
        forall|i: int| 0 <= i < word.len() ==> !white_space(#[trigger] word[i]),
    ensures
        line_sketch(word).bits == DefaultHasher::spec_finish(str_writes(word)),
{
    law_text_without_white_space_is_one_word(word);
    let hashes = token_hashes(word);
    let hash = token_hash(word);
    assert(hashes =~= seq![hash]);
    assert(hashes.drop_last().len() == 0);
    assert(folded(hashes.drop_last()) == 0);
    assert(0u64 ^ hash == hash) by (bit_vector);
}

/// A further word changes a sketch by the hash of the whole word: bit number `j` of the hash
/// flips the bit that lies as many places higher, counted round, as there are words before.
pub proof fn law_next_word_folds_in(line: Seq<char>, space: char, word: Seq<char>, j: nat)
    requires
        white_space(space),
        word.len() > 0,
        forall|i: int| 0 <= i < word.len() ==> !white_space(#[trigger] word[i]),
        j < 64,
    ensures
        ({
            let flipped = line_sketch(line).bits ^ line_sketch(line + seq![space] + word).bits;
            let place = (j + words_of(line).len()) % 64;
            (flipped >> (place as u64)) & 1 == (DefaultHasher::spec_finish(str_writes(word)) >> (
            j as u64)) & 1
        }),
{
    let longer = line + seq![space] + word;
    law_white_space_parts_words(line, space, word);
    law_text_without_white_space_is_one_word(word);
    assert(words_of(longer) =~= words_of(line).push(word));
    assert(token_hashes(longer) =~= token_hashes(line).push(token_hash(word)));
    law_next_hash_folds_in(token_hashes(line), token_hash(word), j);
}

/// White space at the end of a line does not touch its sketch.
pub proof fn law_trailing_space_does_not_matter(line: Seq<char>, space: char)
    requires
        white_space(space),
    ensures
        line_sketch(line + seq![space]) == line_sketch(line),
{
    law_white_space_parts_words(line, space, Seq::empty());
    assert(line + seq![space] + Seq::<char>::empty() =~= line + seq![space]);
    assert(words_of(line) + words_of(Seq::empty()) =~= words_of(line));
}

/// Hashes fold in one by one: none gives zero, and bit number `j` of a further hash flips the bit
/// that lies as many places higher, counted round, as there are hashes before.
pub proof fn law_next_hash_folds_in(hashes: Seq<u64>, hash: u64, j: nat)
    requires
        j < 64,
    ensures
        folded(Seq::empty()) == 0,
        ({
            let flipped = folded(hashes) ^ folded(hashes.push(hash));
            let place = (j + hashes.len()) % 64;
            (flipped >> (place as u64)) & 1 == (hash >> (j as u64)) & 1
        }),
{
    let longer = hashes.push(hash);
    let n = (hashes.len() % 64) as u32;
    let (a, b) = (folded(hashes), rotated(hash, n));
    assert(longer.drop_last() =~= hashes);
    assert(folded(longer) == a ^ b);
    assert(a ^ (a ^ b) == b) by (bit_vector);
    let i = j as u64;
    let place = ((j + hashes.len()) % 64) as u64;
    assert(place == (i + n) % 64) by {
        assert((j + hashes.len()) % 64 == (j + hashes.len() % 64) % 64) by (nonlinear_arith);
    }
    if n == 0 {
        assert(place == i);
    } else {
        let m = (64 - n) as u32;
        assert(((hash << n | hash >> m) >> place) & 1 == (hash >> i) & 1) by (bit_vector)
            requires
                0 < n < 64,
                m == 64 - n,
                i < 64,
                place == (i + n) % 64,
        ;
    }
}

// ---- Similarity ----

/// Similarity counts bits one by one: flipping a bit in which two sketches agree makes them less
/// similar by one, flipping one in which they differ makes them more similar by one.
pub proof fn law_each_bit_counts_one(a: LineSketch, b: LineSketch, i: u64)
    requires
        i < 64,
    ensures
        similarity(a, LineSketch { bits: b.bits ^ (1u64 << i) }) == similarity(a, b) + (if (a.bits
            >> i) & 1 == (b.bits >> i) & 1 {
            -1int
        } else {
            1int
        }),
        similarity(a, a) == 64,
{
    law_similarity_full(a, a);
    lemma_flip(a.bits, b.bits, i, 64);
    let (x, y) = (a.bits, b.bits);
    assert((x >> i) & 1 == 0 || (x >> i) & 1 == 1) by (bit_vector);
    assert((y >> i) & 1 == 0 || (y >> i) & 1 == 1) by (bit_vector);
}

proof fn lemma_flip(a: u64, b: u64, i: u64, n: nat)
    requires
        i < 64,
        n <= 64,
    ensures
        agreeing(a, b ^ (1u64 << i), n) == agreeing(a, b, n) + (if n <= i {
            0int
        } else if bit(a, i as nat) == bit(b, i as nat) {
            -1int
        } else {
            1int
        }),
    decreases n,
{
    if n > 0 {
        lemma_flip(a, b, i, (n - 1) as nat);
        let k = (n - 1) as u64;
        assert(k != i ==> ((b ^ (1u64 << i)) >> k) & 1 == (b >> k) & 1) by (bit_vector)
            requires
                i < 64,
                k < 64,
        ;
        assert(((b ^ (1u64 << i)) >> i) & 1 == 1 <==> (b >> i) & 1 != 1) by (bit_vector)
            requires
                i < 64,
        ;
    }
}

// ---- Clusters ----

/// `found` is the first cluster, if any, whose exemplar may take a line in.
pub open spec fn first_to_accept(
    clusters: Seq<(int, int)>,
    accepts: spec_fn(int) -> bool,
    found: Option<int>,
) -> bool {
    match found {
        Some(k) => {
            &&& 0 <= k < clusters.len()
            &&& accepts(clusters[k].0)
            &&& forall|j: int| 0 <= j < k ==> !accepts((#[trigger] clusters[j]).0)
        },
        None => forall|j: int| 0 <= j < clusters.len() ==> !accepts((#[trigger] clusters[j]).0),
    }
}

/// A further line adds one to the count of the first cluster whose exemplar it is more similar to
/// than the threshold, and leaves the others alone; where there is none, it starts a cluster of
/// its own at the end.
pub proof fn law_next_line_joins_or_starts_sketched_cluster(
    lines: Seq<Seq<char>>,
    line: Seq<char>,
    threshold: int,
    found: Option<int>,
)
    requires
        first_to_accept(
            sketched_clusters(lines, threshold),
            |i: int| similarity(line_sketch(lines[i]), line_sketch(line)) > threshold,
            found,
        ),
    ensures
        ({
            let before = sketched_clusters(lines, threshold);
            sketched_clusters(lines.push(line), threshold) == match found {
                Some(k) => before.update(k, (before[k].0, before[k].1 + 1)),
                None => before.push((lines.len() as int, 1)),
            }
        }),
        sketched_clusters(Seq::empty(), threshold) == Seq::<(int, int)>::empty(),
{
    let (s, x) = (line_sketches(lines), line_sketch(line));
    assert(line_sketches(lines.push(line)) =~= s.push(x));
    let c = sketched_clusters(lines, threshold);
    lemma_exemplars_ordered(lines.len(), similar(s, threshold));
    let accepts = |i: int| similarity(line_sketch(lines[i]), line_sketch(line)) > threshold;
    let sketched = |i: int| similarity(s[i], x) > threshold;
    assert forall|j: int| 0 <= j < c.len() implies accepts((#[trigger] c[j]).0) == sketched(
        c[j].0,
    ) by {
        assert(0 <= exemplars(lines.len(), similar(s, threshold))[j] < lines.len());
    }
    assert(first_to_accept(c, sketched, found));
    law_next_sketch_joins_or_starts_cluster(s, x, threshold, found);
    assert(sketched_clusters(Seq::empty(), threshold) =~= Seq::<(int, int)>::empty());
}

/// The same holds of sketches.
pub proof fn law_next_sketch_joins_or_starts_cluster(
    sketches: Seq<LineSketch>,
    sketch: LineSketch,
    threshold: int,
    found: Option<int>,
)
    requires
        first_to_accept(
            clusters(sketches.len(), similar(sketches, threshold)),
            |i: int| similarity(sketches[i], sketch) > threshold,
            found,
        ),
    ensures
        ({
            let before = clusters(sketches.len(), similar(sketches, threshold));
            let after = sketches.push(sketch);
            clusters(after.len(), similar(after, threshold)) == match found {
                Some(k) => before.update(k, (before[k].0, before[k].1 + 1)),
                None => before.push((sketches.len() as int, 1)),
            }
        }),
{
    let n = sketches.len();
    let after = sketches.push(sketch);
    let (old_relation, relation) = (similar(sketches, threshold), similar(after, threshold));
    law_same_relation_same_clusters(n, old_relation, relation);
    lemma_step(
        n,
        relation,
        |i: int| similarity(sketches[i], sketch) > threshold,
        found,
    );
}

/// Exact clustering goes the same way, with equality in place of similarity: a further line joins
/// the cluster of its text, or starts one.
pub proof fn law_next_line_joins_or_starts_exact_cluster(
    texts: Seq<Seq<char>>,
    text: Seq<char>,
    found: Option<int>,
)
    requires
        first_to_accept(exact_clusters(texts), |i: int| texts[i] == text, found),
    ensures
        ({
            let before = exact_clusters(texts);
            exact_clusters(texts.push(text)) == match found {
                Some(k) => before.update(k, (before[k].0, before[k].1 + 1)),
                None => before.push((texts.len() as int, 1)),
            }
        }),
        exact_clusters(Seq::empty()) == Seq::<(int, int)>::empty(),
{
    let n = texts.len();
    let (old_relation, relation) = (same_key(texts), same_key(texts.push(text)));
    law_same_relation_same_clusters(n, old_relation, relation);
    lemma_step(n, relation, |i: int| texts[i] == text, found);
    assert(exact_clusters(Seq::empty()) =~= Seq::<(int, int)>::empty());
}

proof fn lemma_step(
    n: nat,
    alike: spec_fn(int, int) -> bool,
    accepts: spec_fn(int) -> bool,
    found: Option<int>,
)
    requires
        first_to_accept(clusters(n, alike), accepts, found),
        forall|i: int| 0 <= i < n ==> #[trigger] accepts(i) == alike(i, n as int),
    ensures
        clusters(n + 1, alike) == match found {
            Some(k) => clusters(n, alike).update(
                k,
                (clusters(n, alike)[k].0, clusters(n, alike)[k].1 + 1),
            ),
            None => clusters(n, alike).push((n as int, 1)),
        },
{
    let c = clusters(n, alike);
    let e = exemplars(n, alike);
    lemma_exemplars_ordered(n, alike);
    assert forall|j: int| 0 <= j < e.len() implies alike(#[trigger] e[j], n as int) == accepts(
        c[j].0,
    ) by {}
    match found {
        Some(k) => {
            lemma_clusters_join(n, alike, k);
        },
        None => {
            lemma_clusters_new(n, alike);
        },
    }
}

} // verus!
