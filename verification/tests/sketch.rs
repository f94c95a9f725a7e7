//! Sketches, their similarity and clustering by it.

use rtk::rank::sort_by_count;
use rtk::sketch::{
    cluster_sketches, deduplicate_sketched, fold_hashes, sketch_line, sketch_similarity, LineSketch,
};
use std::hash::{DefaultHasher, Hash, Hasher};

/// Similarity as a value in `[0.0, 1.0]`.
fn similarity(a: &LineSketch, b: &LineSketch) -> f64 {
    sketch_similarity(a, b) as f64 / 64.0
}

/// A similarity threshold between zero and one in whole bits of 64.
fn bits(threshold: f64) -> i32 {
    (threshold * 64.0).floor() as i32
}

#[test]
fn test_sketch_identical_lines() {
    let a = sketch_line("ERROR: connection refused to server");
    let b = sketch_line("ERROR: connection refused to server");
    assert_eq!(a, b);
    assert!((similarity(&a, &b) - 1.0).abs() < f64::EPSILON);
}

#[test]
fn test_sketch_similar_lines() {
    let a = sketch_line("ERROR: connection refused to host alpha");
    let b = sketch_line("ERROR: connection refused to host beta");
    let sim = similarity(&a, &b);
    // These lines differ by one token so similarity should be high
    assert!(sim > 0.5, "Expected similarity > 0.5, got {}", sim);
}

#[test]
fn test_sketch_different_lines() {
    let a = sketch_line("ERROR: connection refused to server");
    let b = sketch_line("INFO: starting application on port 8080");
    let sim = similarity(&a, &b);
    // Very different lines should have low similarity
    assert!(sim < 0.85, "Expected similarity < 0.85, got {}", sim);
}

#[test]
fn test_sketch_empty_line() {
    let s = sketch_line("");
    assert_eq!(s.bits, 0);
}

#[test]
fn test_sketch_single_token() {
    let s = sketch_line("ERROR");
    assert_ne!(s.bits, 0);
}

#[test]
fn test_deduplicate_identical() {
    let lines = vec![
        "ERROR: connection failed",
        "ERROR: connection failed",
        "ERROR: connection failed",
    ];
    let clusters = deduplicate_sketched(&lines, bits(0.85));
    assert_eq!(clusters.len(), 1);
    assert_eq!(clusters[0], (0, 3));
}

#[test]
fn test_deduplicate_distinct() {
    let lines = vec![
        "ERROR: connection refused",
        "WARN: disk space low",
        "INFO: server started",
    ];
    let clusters = deduplicate_sketched(&lines, bits(0.85));
    assert_eq!(clusters.len(), 3);
    for cluster in &clusters {
        assert_eq!(cluster.1, 1);
    }
}

#[test]
fn test_deduplicate_empty() {
    let lines: Vec<&str> = vec![];
    let clusters = deduplicate_sketched(&lines, bits(0.85));
    assert!(clusters.is_empty());
}

#[test]
fn test_deduplicate_mixed() {
    // Two groups of identical lines plus one outlier
    let lines = vec![
        "ERROR: connection refused to host alpha",
        "ERROR: connection refused to host alpha",
        "ERROR: connection refused to host alpha",
        "WARN: disk space critically low on volume sda1",
        "WARN: disk space critically low on volume sda1",
        "INFO: completely different message here",
    ];
    let clusters = deduplicate_sketched(&lines, bits(0.85));
    // 3 clusters: the ERROR group (x3), the WARN group (x2), and the INFO (x1)
    assert_eq!(
        clusters.len(),
        3,
        "Expected 3 clusters, got {}",
        clusters.len()
    );
}

#[test]
fn test_similarity_symmetry() {
    let a = sketch_line("foo bar baz");
    let b = sketch_line("foo bar qux");
    assert!((similarity(&a, &b) - similarity(&b, &a)).abs() < f64::EPSILON);
}

#[test]
fn test_similarity_range() {
    let a = sketch_line("hello world");
    let b = sketch_line("goodbye universe");
    let sim = similarity(&a, &b);
    assert!((0.0..=1.0).contains(&sim), "Similarity {} out of range", sim);
}

/// The hash of one token.
fn hash(token: &str) -> u64 {
    let mut hasher = DefaultHasher::new();
    token.hash(&mut hasher);
    hasher.finish()
}

#[test]
fn sketch_is_the_fold_of_rotated_hashes() {
    assert_eq!(sketch_line("alpha").bits, hash("alpha"));
    assert_eq!(
        sketch_line("alpha beta\tgamma").bits,
        hash("alpha") ^ hash("beta").rotate_left(1) ^ hash("gamma").rotate_left(2)
    );
    // Position 64 is rotated like position 0.
    let line = vec!["w"; 65].join(" ");
    let mut expected: u64 = 0;
    for pos in 0..65u32 {
        expected ^= hash("w").rotate_left(pos % 64);
    }
    assert_eq!(sketch_line(&line).bits, expected);
}

#[test]
fn hashes_fold() {
    assert_eq!(fold_hashes(&[]).bits, 0);
    assert_eq!(fold_hashes(&[5]).bits, 5);
    assert_eq!(fold_hashes(&[0, 1 << 63]).bits, 1);
    assert_eq!(fold_hashes(&[1, 1, 1]).bits, 0b111);
}

#[test]
fn spacing_does_not_matter() {
    assert_eq!(sketch_line("  a \t b\u{3000}c "), sketch_line("a b c"));
    assert_ne!(sketch_line("a b"), sketch_line("b a"));
    assert_eq!(sketch_line(" \u{a0}\n").bits, 0);
}

#[test]
fn similarity_counts_agreeing_bits() {
    let zero = LineSketch { bits: 0 };
    let full = LineSketch { bits: u64::MAX };
    assert_eq!(sketch_similarity(&zero, &zero), 64);
    assert_eq!(sketch_similarity(&zero, &full), 0);
    assert_eq!(sketch_similarity(&zero, &LineSketch { bits: 0b1011 }), 61);
    assert_eq!(sketch_similarity(&full, &LineSketch { bits: 1 << 63 }), 1);
}

#[test]
fn first_match_wins() {
    let s = |bits: u64| LineSketch { bits };
    // The third is as near to the first as to the second; the first is asked first.
    let sketches = [s(0b0000), s(0b1111), s(0b0011)];
    assert_eq!(cluster_sketches(&sketches, 61), vec![(0, 2), (1, 1)]);
    // The fourth is near to the third alone, which is no exemplar.
    let chain = [s(0b0000), s(0b1111), s(0b0011), s(0b0111)];
    assert_eq!(cluster_sketches(&chain, 61), vec![(0, 2), (1, 2)]);
    assert_eq!(cluster_sketches(&chain, 62), vec![(0, 1), (1, 2), (2, 1)]);
}

#[test]
fn exemplars_stand_apart_and_every_cluster_counts() {
    let sketches: Vec<LineSketch> =
        (0..40u64).map(|i| LineSketch { bits: i * i * 0x9e37_79b9 }).collect();
    for threshold in [29, 47, 54, 59] {
        let clusters = cluster_sketches(&sketches, threshold);
        assert_eq!(clusters[0].0, 0);
        for k in 0..clusters.len() {
            assert!(clusters[k].1 >= 1);
            for j in 0..k {
                let (a, b) = (&sketches[clusters[j].0], &sketches[clusters[k].0]);
                assert!(clusters[j].0 < clusters[k].0);
                assert!(sketch_similarity(a, b) as i32 <= threshold);
            }
        }
    }
}

#[test]
fn thresholds_at_the_ends() {
    let lines = ["one", "two", "one", "three"];
    assert_eq!(deduplicate_sketched(&lines, -1), vec![(0, 4)]);
    assert_eq!(deduplicate_sketched(&lines, 63), vec![(0, 2), (1, 1), (3, 1)]);
    // No similarity exceeds all bits.
    assert_eq!(
        deduplicate_sketched(&lines, 64),
        vec![(0, 1), (1, 1), (2, 1), (3, 1)]
    );
    assert_eq!(deduplicate_sketched(&["a", "a"], bits(1.0)), vec![(0, 1), (1, 1)]);
}

#[test]
fn a_tie_does_not_join() {
    let s = |bits: u64| LineSketch { bits };
    // The two agree in 60 bits.
    let sketches = [s(0b0000), s(0b1111)];
    assert_eq!(cluster_sketches(&sketches, 60), vec![(0, 1), (1, 1)]);
    assert_eq!(cluster_sketches(&sketches, 59), vec![(0, 2)]);
    let zero = [s(0), s(u64::MAX)];
    assert_eq!(cluster_sketches(&zero, 0), vec![(0, 1), (1, 1)]);
    assert_eq!(cluster_sketches(&zero, -1), vec![(0, 2)]);
}

#[test]
fn ranking() {
    assert_eq!(sort_by_count(&[]), vec![]);
    assert_eq!(sort_by_count(&[(3, 1)]), vec![(3, 1)]);
    assert_eq!(
        sort_by_count(&[(0, 1), (1, 5), (2, 1), (4, 7), (9, 5)]),
        vec![(4, 7), (1, 5), (9, 5), (0, 1), (2, 1)]
    );
    let many: Vec<(usize, usize)> = (0..200).map(|i| (i, (i * 37) % 11)).collect();
    let mut expected = many.clone();
    expected.sort_by(|a, b| b.1.cmp(&a.1));
    assert_eq!(sort_by_count(&many), expected);
}
