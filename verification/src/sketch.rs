//! Line sketches for fuzzy deduplication.
//!
//! A sketch is a 64-bit fingerprint of a text line: the hashes of its words, each rotated by
//! the word's position, folded together with exclusive or. Two sketches are as similar as the
//! number of bits in which they agree. Similarities and thresholds are counted in bits, that
//! is, in sixty-fourths: 64 is a similarity of one, 0 a similarity of zero. A line joins a cluster
//! where its similarity with the exemplar exceeds the threshold. So at a threshold of 64 every
//! line stands alone, and below zero all lines stand together.

use std::hash::{DefaultHasher, Hash, Hasher};
use vstd::prelude::*;
use vstd::std_specs::hash::DefaultHasherAdditionalSpecFns;

use crate::cluster::{
    as_ints, clusters, exemplars, lemma_clusters_join, lemma_clusters_new, lemma_exemplars_ordered,
    lemma_members_bound,
};
use crate::text::{split_words, texts, words_of};

verus! {

/// A 64-bit sketch representing the token structure of a text line.
#[derive(Debug, Clone, Copy, PartialEq, Eq, Structural)]
pub struct LineSketch {
    pub bits: u64,
}

// ---- Meaning ----

/// Bit number `i` of `x`, counted from the lowest.
pub open spec fn bit(x: u64, i: nat) -> bool {
    (x >> (i as u64)) & 1 == 1
}

/// How many of the lowest `n` bits of `x` are set.
pub open spec fn ones(x: u64, n: nat) -> nat
    decreases n,
{
    if n == 0 {
        0
    } else {
        ones(x, (n - 1) as nat) + if bit(x, (n - 1) as nat) {
            1nat
        } else {
            0
        }
    }
}

/// In how many of the lowest `n` bits `a` and `b` agree.
pub open spec fn agreeing(a: u64, b: u64, n: nat) -> nat
    decreases n,
{
    if n == 0 {
        0
    } else {
        agreeing(a, b, (n - 1) as nat) + if bit(a, (n - 1) as nat) == bit(b, (n - 1) as nat) {
            1nat
        } else {
            0
        }
    }
}

/// The similarity of two sketches: the number of bits in which they agree.
pub open spec fn similarity(a: LineSketch, b: LineSketch) -> nat {
    agreeing(a.bits, b.bits, 64)
}

/// `x` with its bits moved up by `n` places; those that leave at the top come in at the bottom.
pub open spec fn rotated(x: u64, n: u32) -> u64 {
    if n % 64 == 0 {
        x
    } else {
        (x << (n % 64)) | (x >> ((64 - n % 64) as u32))
    }
}

/// The exclusive or of the hashes, each rotated by its position.
pub open spec fn folded(hashes: Seq<u64>) -> u64
    decreases hashes.len(),
{
    if hashes.len() == 0 {
        0
    } else {
        folded(hashes.drop_last()) ^ rotated(hashes.last(), ((hashes.len() - 1) % 64) as u32)
    }
}

/// What hashing a string writes to the hasher.
pub uninterp spec fn str_writes(token: Seq<char>) -> Seq<Seq<u8>>;

/// The hash of a word.
pub open spec fn token_hash(token: Seq<char>) -> u64 {
    DefaultHasher::spec_finish(str_writes(token))
}

/// The hash of each word of a line.
pub open spec fn token_hashes(line: Seq<char>) -> Seq<u64> {
    words_of(line).map_values(|word: Seq<char>| token_hash(word))
}

/// The sketch of a line.
pub open spec fn line_sketch(line: Seq<char>) -> LineSketch {
    LineSketch { bits: folded(token_hashes(line)) }
}

/// The contents of a list of string slices.
pub open spec fn views(lines: Seq<&str>) -> Seq<Seq<char>> {
    Seq::new(lines.len(), |i: int| lines[i]@)
}

/// The sketch of each line.
pub open spec fn line_sketches(lines: Seq<Seq<char>>) -> Seq<LineSketch> {
    lines.map_values(|line: Seq<char>| line_sketch(line))
}

/// The similarity of sketch number `i` with sketch number `j` exceeds the threshold.
pub open spec fn similar(sketches: Seq<LineSketch>, threshold: int) -> spec_fn(int, int) -> bool {
    |j: int, i: int| similarity(sketches[j], sketches[i]) > threshold
}

/// The clusters of lines whose sketches are similar.
pub open spec fn sketched_clusters(lines: Seq<Seq<char>>, threshold: int) -> Seq<(int, int)> {
    clusters(lines.len(), similar(line_sketches(lines), threshold))
}

// ---- Outside functions ----

/// `u64::count_ones` returns the number of ones in the binary representation.
pub assume_specification[ u64::count_ones ](x: u64) -> (r: u32)
    ensures
        r == ones(x, 64),
;

/// `u64::rotate_left` shifts the bits to the left, wrapping those that fall off to the low end.
pub assume_specification[ u64::rotate_left ](x: u64, n: u32) -> (r: u64)
    ensures
        r == rotated(x, n),
;

/// `<str as Hash>::hash` feeds a string to a hasher: what it writes depends on the string
/// alone, and comes after what was written before.
#[verifier::external_body]
fn feed(token: &str, hasher: &mut DefaultHasher)
    ensures
        final(hasher)@ == old(hasher)@ + str_writes(token@),
{
    token.hash(hasher);
}

// ---- Functions ----

/// Folds the hashes of the words of a line into its sketch.
pub fn fold_hashes(hashes: &[u64]) -> (r: LineSketch)
    ensures
        r.bits == folded(hashes@),
{
    let mut bits: u64 = 0;
    for pos in 0..hashes.len()
        invariant
            bits == folded(hashes@.take(pos as int)),
    {
        let ghost seen = hashes@.take(pos + 1);
        assert(seen.drop_last() =~= hashes@.take(pos as int));
        bits = bits ^ hashes[pos].rotate_left((pos % 64) as u32);
    }
    assert(hashes@.take(hashes@.len() as int) =~= hashes@);
    LineSketch { bits }
}

fn hash_token(token: &str) -> (r: u64)
    ensures
        r == token_hash(token@),
{
    let mut hasher = DefaultHasher::new();
    feed(token, &mut hasher);
    assert(hasher@ =~= str_writes(token@));
    hasher.finish()
}

/// Computes a 64-bit sketch of a text line.
///
/// Each whitespace-separated token is hashed with `DefaultHasher`, and the hash is rotated left
/// by `position % 64` bits before it is folded in with exclusive or.
pub fn sketch_line(line: &str) -> (r: LineSketch)
    ensures
        r == line_sketch(line@),
{
    let words = split_words(line);
    let mut hashes: Vec<u64> = Vec::new();
    for i in 0..words.len()
        invariant
            texts(words@) == words_of(line@),
            hashes@ == token_hashes(line@).take(i as int),
    {
        assert(texts(words@)[i as int] == words@[i as int]@);
        hashes.push(hash_token(words[i].as_str()));
        assert(hashes@ =~= token_hashes(line@).take(i + 1));
    }
    assert(hashes@ =~= token_hashes(line@));
    fold_hashes(hashes.as_slice())
}

/// How similar two sketches are: the number of bits, out of 64, in which they agree.
pub fn sketch_similarity(a: &LineSketch, b: &LineSketch) -> (r: u32)
    ensures
        r == similarity(*a, *b),
        r <= 64,
{
    proof {
        lemma_agreeing_ones(a.bits, b.bits, 64);
    }
    64 - (a.bits ^ b.bits).count_ones()
}

/// Clusters sketches: each joins the first cluster whose exemplar it is similar to, or starts a
/// cluster of its own. Returns `(exemplar_index, count)` pairs in the order of the exemplars.
pub fn cluster_sketches(sketches: &[LineSketch], threshold: i32) -> (r: Vec<(usize, usize)>)
    ensures
        as_ints(r@) == clusters(sketches@.len(), similar(sketches@, threshold as int)),
{
    let mut out: Vec<(usize, usize)> = Vec::new();
    let ghost alike = similar(sketches@, threshold as int);
    assert(as_ints(out@) =~= clusters(0, alike));
    for i in 0..sketches.len()
        invariant
            alike == similar(sketches@, threshold as int),
            as_ints(out@) == clusters(i as nat, alike),
    {
        let ghost e = exemplars(i as nat, alike);
        proof {
            lemma_exemplars_ordered(i as nat, alike);
            assert(as_ints(out@).len() == e.len());
            assert forall|k: int| 0 <= k < out@.len() implies #[trigger] out@[k].0 == e[k] by {
                assert(as_ints(out@)[k] == clusters(i as nat, alike)[k]);
            }
        }
        let mut k: usize = 0;
        while k < out.len() && sketch_similarity(&sketches[out[k].0], &sketches[i]) as i32
            <= threshold
            invariant
                i < sketches@.len(),
                k <= out@.len(),
                out@.len() == e.len(),
                alike == similar(sketches@, threshold as int),
                forall|j: int| 0 <= j < out@.len() ==> #[trigger] out@[j].0 == e[j],
                forall|j: int| 0 <= j < e.len() ==> 0 <= #[trigger] e[j] < i,
                forall|j: int| 0 <= j < k ==> !alike(#[trigger] e[j], i as int),
            decreases out@.len() - k,
        {
            assert(out@[k as int].0 == e[k as int]);
            k += 1;
        }
        let ghost before = out@;
        if k < out.len() {
            let (exemplar, count) = out[k];
            proof {
                assert(before[k as int].0 == e[k as int]);
                assert(as_ints(before)[k as int] == clusters(i as nat, alike)[k as int]);
                lemma_members_bound(i as nat, e, alike, k as int);
                lemma_clusters_join(i as nat, alike, k as int);
            }
            out.set(k, (exemplar, count + 1));
            assert(as_ints(out@) =~= clusters(i as nat + 1, alike));
        } else {
            proof {
                lemma_clusters_new(i as nat, alike);
            }
            out.push((i, 1));
            assert(as_ints(out@) =~= clusters(i as nat + 1, alike));
        }
    }
    out
}

/// Deduplicates lines using sketch similarity.
///
/// Returns a list of `(exemplar_index, count)` pairs. Each exemplar represents a cluster of
/// lines whose sketches exceed `threshold` similarity with the exemplar, counted in bits of 64.
pub fn deduplicate_sketched(lines: &[&str], threshold: i32) -> (r: Vec<(usize, usize)>)
    ensures
        as_ints(r@) == sketched_clusters(views(lines@), threshold as int),
{
    let mut sketches: Vec<LineSketch> = Vec::new();
    let ghost wanted = line_sketches(views(lines@));
    for i in 0..lines.len()
        invariant
            wanted == line_sketches(views(lines@)),
            sketches@ == wanted.take(i as int),
    {
        sketches.push(sketch_line(lines[i]));
        assert(sketches@ =~= wanted.take(i + 1));
    }
    assert(sketches@ =~= wanted);
    cluster_sketches(sketches.as_slice(), threshold)
}

/// Bits of an exclusive or are set where the bits of its operands differ.
pub proof fn lemma_agreeing_ones(a: u64, b: u64, n: nat)
    requires
        n <= 64,
    ensures
        agreeing(a, b, n) + ones(a ^ b, n) == n,
    decreases n,
{
    if n > 0 {
        lemma_agreeing_ones(a, b, (n - 1) as nat);
        let i = (n - 1) as u64;
        assert(((a ^ b) >> i) & 1 == 1 <==> ((a >> i) & 1 == 1) != ((b >> i) & 1 == 1))
            by (bit_vector);
    }
}

} // verus!
