//! What sketches and their similarity promise.

use vstd::prelude::*;

use crate::cluster::{accepts, belongs, exemplars};
use crate::laws::cluster::{law_all_alike, law_none_alike};
use crate::laws::text::law_blank_text_without_words;
use crate::sketch::{
    agreeing, bit, lemma_agreeing_ones, line_sketch, line_sketches, ones, similar, similarity,
    sketched_clusters, token_hashes, LineSketch,
};
use crate::text::{white_space, words_of};

verus! {

/// Similarity does not depend on the order of the sketches.
pub proof fn law_similarity_symmetric(a: LineSketch, b: LineSketch)
    ensures
        similarity(a, b) == similarity(b, a),
{
    lemma_agreeing_symmetric(a.bits, b.bits, 64);
}

/// Similarity lies between none and all of the 64 bits.
pub proof fn law_similarity_range(a: LineSketch, b: LineSketch)
    ensures
        0 <= similarity(a, b) <= 64,
{
    lemma_agreeing_bound(a.bits, b.bits, 64);
}

/// Two sketches agree in all bits where they are equal, and only there.
pub proof fn law_similarity_full(a: LineSketch, b: LineSketch)
    ensures
        similarity(a, b) == 64 <==> a == b,
{
    let x = a.bits ^ b.bits;
    lemma_agreeing_ones(a.bits, b.bits, 64);
    if a == b {
        let y = a.bits;
        assert(y ^ y == 0) by (bit_vector);
        lemma_no_ones_in_zero(64);
    }
    if similarity(a, b) == 64 {
        lemma_no_ones_means_zero(x);
        let (y, z) = (a.bits, b.bits);
        assert(y ^ z == 0 ==> y == z) by (bit_vector);
    }
}

/// A blank line has a sketch without a bit set.
pub proof fn law_blank_line_sketch(line: Seq<char>)
    requires
        forall|i: int| 0 <= i < line.len() ==> white_space(#[trigger] line[i]),
    ensures
        line_sketch(line).bits == 0,
{
    law_blank_text_without_words(line);
    assert(token_hashes(line).len() == 0);
}

/// Lines with the same words have the same sketch, however the words are spaced.
pub proof fn law_spacing_does_not_matter(a: Seq<char>, b: Seq<char>)
    requires
        words_of(a) == words_of(b),
    ensures
        line_sketch(a) == line_sketch(b),
{
}

/// Equal sketches fall into the same cluster, for every threshold below 64 bits.
pub proof fn law_equal_sketches_share_cluster(
    sketches: Seq<LineSketch>,
    threshold: int,
    i: int,
    j: int,
    k: int,
)
    requires
        threshold < 64,
        0 <= j < i < sketches.len(),
        sketches[i] == sketches[j],
    ensures
        belongs(
            exemplars(sketches.len(), similar(sketches, threshold)),
            similar(sketches, threshold),
            k,
            i,
        ) <==> belongs(
            exemplars(sketches.len(), similar(sketches, threshold)),
            similar(sketches, threshold),
            k,
            j,
        ),
{
    let alike = similar(sketches, threshold);
    let e = exemplars(sketches.len(), alike);
    law_similarity_full(sketches[i], sketches[j]);
    law_similarity_full(sketches[i], sketches[i]);
    assert forall|h: int| 0 <= h < e.len() implies #[trigger] accepts(e, alike, h, i) == accepts(
        e,
        alike,
        h,
        j,
    ) by {}
    if belongs(e, alike, k, i) {
        assert forall|h: int| 0 <= h < k implies !#[trigger] accepts(e, alike, h, j) by {
            assert(!accepts(e, alike, h, i));
        }
        assert(accepts(e, alike, k, i));
    }
    if belongs(e, alike, k, j) {
        assert(accepts(e, alike, k, i) == accepts(e, alike, k, j));
    }
}

/// Identical lines make one cluster, for every threshold below 64 bits.
pub proof fn law_identical_lines_make_one_cluster(lines: Seq<Seq<char>>, threshold: int)
    requires
        threshold < 64,
        lines.len() > 0,
        forall|i: int| 0 <= i < lines.len() ==> #[trigger] lines[i] == lines[0],
    ensures
        sketched_clusters(lines, threshold) == seq![(0int, lines.len() as int)],
{
    let sketches = line_sketches(lines);
    let alike = similar(sketches, threshold);
    assert forall|j: int, i: int| 0 <= j < i < lines.len() implies #[trigger] alike(j, i) by {
        assert(lines[j] == lines[0] && lines[i] == lines[0]);
        law_similarity_full(sketches[j], sketches[i]);
    }
    law_all_alike(lines.len(), alike);
}

/// A threshold below zero puts all lines into one cluster.
pub proof fn law_negative_threshold_makes_one_cluster(lines: Seq<Seq<char>>, threshold: int)
    requires
        threshold < 0,
        lines.len() > 0,
    ensures
        sketched_clusters(lines, threshold) == seq![(0int, lines.len() as int)],
{
    law_all_alike(lines.len(), similar(line_sketches(lines), threshold));
}

/// No similarity exceeds 64 bits: at that threshold every line has a cluster of its own, even
/// where lines are identical.
pub proof fn law_full_threshold_keeps_lines_apart(lines: Seq<Seq<char>>, threshold: int)
    requires
        threshold >= 64,
    ensures
        sketched_clusters(lines, threshold) == Seq::new(lines.len(), |k: int| (k, 1int)),
{
    let sketches = line_sketches(lines);
    let alike = similar(sketches, threshold);
    assert forall|j: int, i: int| 0 <= j < i < lines.len() implies !#[trigger] alike(j, i) by {
        law_similarity_range(sketches[j], sketches[i]);
    }
    law_none_alike(lines.len(), alike);
}

// ---- Lemmas ----

proof fn lemma_agreeing_symmetric(a: u64, b: u64, n: nat)
    ensures
        agreeing(a, b, n) == agreeing(b, a, n),
    decreases n,
{
    if n > 0 {
        lemma_agreeing_symmetric(a, b, (n - 1) as nat);
    }
}

proof fn lemma_agreeing_bound(a: u64, b: u64, n: nat)
    ensures
        agreeing(a, b, n) <= n,
    decreases n,
{
    if n > 0 {
        lemma_agreeing_bound(a, b, (n - 1) as nat);
    }
}

proof fn lemma_no_ones_in_zero(n: nat)
    requires
        n <= 64,
    ensures
        ones(0, n) == 0,
    decreases n,
{
    if n > 0 {
        lemma_no_ones_in_zero((n - 1) as nat);
        let i = (n - 1) as u64;
        assert((0u64 >> i) & 1 == 0) by (bit_vector);
    }
}

/// Where none of the lowest `n` bits is set, they make up zero.
proof fn lemma_no_low_ones(x: u64, n: nat)
    requires
        n < 64,
        ones(x, n) == 0,
    ensures
        x & ((1u64 << (n as u64)) - 1) as u64 == 0,
    decreases n,
{
    let m = n as u64;
    if n == 0 {
        assert(x & ((1u64 << m) - 1) as u64 == 0) by (bit_vector)
            requires
                m == 0,
        ;
    } else {
        lemma_no_low_ones(x, (n - 1) as nat);
        let i = (n - 1) as u64;
        assert(!bit(x, (n - 1) as nat));
        assert(x & ((1u64 << m) - 1) as u64 == 0) by (bit_vector)
            requires
                m < 64,
                m == i + 1,
                x & ((1u64 << i) - 1) as u64 == 0,
                (x >> i) & 1 != 1,
        ;
    }
}

proof fn lemma_no_ones_means_zero(x: u64)
    requires
        ones(x, 64) == 0,
    ensures
        x == 0,
{
    assert(ones(x, 63) == 0);
    assert(!bit(x, 63));
    lemma_no_low_ones(x, 63);
    assert(x == 0) by (bit_vector)
        requires
            x & ((1u64 << 63u64) - 1) as u64 == 0,
            (x >> 63u64) & 1 != 1,
    ;
}

} // verus!
