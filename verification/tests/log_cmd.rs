//! Log analysis from raw text to report.

use rtk::collect::{classify, collect, severity, LogLines, Severity};
use rtk::log_cmd::{
    analyze_logs, analyze_logs_exact, analyze_logs_sketched, exact_cluster_lines, or_exact,
    run_stdin_str, sketch_cluster_lines, SKETCH_SIMILARITY_THRESHOLD,
};
use rtk::normalize::{normalize_log_line, LinePatterns};

/// A similarity threshold between zero and one in whole bits of 64.
fn bits(threshold: f64) -> i32 {
    (threshold * 64.0).floor() as i32
}

fn normalize(line: &str) -> String {
    let p = LinePatterns::new();
    normalize_log_line(line, &p.timestamp, &p.uuid, &p.hex, &p.num, &p.path)
}

#[test]
fn test_analyze_logs() {
    let logs = r#"
2024-01-01 10:00:00 ERROR: Connection failed to /api/server
2024-01-01 10:00:01 ERROR: Connection failed to /api/server
2024-01-01 10:00:02 ERROR: Connection failed to /api/server
2024-01-01 10:00:03 WARN: Retrying connection
2024-01-01 10:00:04 INFO: Connected
"#;
    let result = analyze_logs(logs);
    assert!(result.contains("×3"));
    assert!(result.contains("ERRORS"));
}

#[test]
fn test_analyze_logs_multibyte() {
    let logs = format!(
        "2024-01-01 10:00:00 ERROR: {} connection failed\n\
         2024-01-01 10:00:01 WARN: {} retry attempt\n",
        "ข้อผิดพลาด".repeat(15),
        "คำเตือน".repeat(15)
    );
    let result = analyze_logs(&logs);
    // Should not panic even with very long multi-byte messages
    assert!(result.contains("ERRORS"));
}

#[test]
fn test_sketch_fuzzy_dedup_groups_similar_errors() {
    // Lines differ only in the path segment -- after normalization paths become <PATH>,
    // so these should be grouped by both exact and sketch dedup.
    let logs = "\
2024-01-01 10:00:00 ERROR: Connection failed to /api/server1\n\
2024-01-01 10:00:01 ERROR: Connection failed to /api/server2\n\
2024-01-01 10:00:02 ERROR: Connection failed to /api/server3\n\
2024-01-01 10:00:03 INFO: OK\n";
    let result = analyze_logs(logs);
    assert!(result.contains("ERRORS"));
    // All three should be clustered (shown as x3)
    assert!(
        result.contains("×3"),
        "Expected fuzzy dedup to group 3 similar errors, got:\n{}",
        result
    );
}

#[test]
fn test_sketch_dedup_keeps_distinct_messages() {
    let logs = "\
2024-01-01 10:00:00 ERROR: Connection refused\n\
2024-01-01 10:00:01 ERROR: Out of memory on allocation\n\
2024-01-01 10:00:02 ERROR: Permission denied for user root\n";
    let result = analyze_logs(logs);
    assert!(result.contains("ERRORS"));
    // Three distinct errors should remain separate (3 unique)
    assert!(
        result.contains("3 unique"),
        "Expected 3 unique errors, got:\n{}",
        result
    );
}

#[test]
fn test_exact_fallback_works() {
    // Verify the exact dedup fallback produces valid output
    let logs = "\
2024-01-01 10:00:00 ERROR: something failed\n\
2024-01-01 10:00:01 ERROR: something failed\n";
    let result = analyze_logs_exact(logs);
    assert!(result.contains("×2"));
    assert!(result.contains("ERRORS"));
}

#[test]
fn test_sketch_cluster_lines_empty() {
    let lines: Vec<(String, String)> = Vec::new();
    let clusters = sketch_cluster_lines(&lines, bits(0.85));
    assert!(clusters.is_empty());
}

#[test]
fn threshold_is_85_percent() {
    assert_eq!(SKETCH_SIMILARITY_THRESHOLD, bits(0.85));
    for n in 0..=64i32 {
        assert_eq!(n > SKETCH_SIMILARITY_THRESHOLD, n as f64 / 64.0 > 0.85);
    }
}

#[test]
fn full_report() {
    let logs = "\
2024-01-01 10:00:00 ERROR: Connection failed to /api/server1\n\
2024-01-01 10:00:01 ERROR: Connection failed to /api/server2\n\
2024-01-01 10:00:02 FATAL: disk 0xDEADBEEF is gone\n\
2024-01-01 10:00:03 WARN: retry\n\
2024-01-01 10:00:04 INFO: fine\n\
2024-01-01 10:00:05 INFO: still fine\n\
nothing to see here\n";
    let expected = "Log Summary
   [error] 3 errors (2 unique)
   [warn] 1 warnings (1 unique)
   [info] 2 info messages

[ERRORS]
   [×2] 2024-01-01 10:00:00 ERROR: Connection failed to /api/server1
   2024-01-01 10:00:02 FATAL: disk 0xDEADBEEF is gone

[WARNINGS]
   2024-01-01 10:00:03 WARN: retry";
    assert_eq!(analyze_logs(logs), expected);
    assert_eq!(analyze_logs_exact(logs), expected);
    assert_eq!(run_stdin_str(logs), expected);
    assert_eq!(analyze_logs_sketched(logs), Some(expected.to_string()));
}

#[test]
fn report_on_nothing() {
    let expected = "Log Summary
   [error] 0 errors (0 unique)
   [warn] 0 warnings (0 unique)
   [info] 0 info messages
";
    assert_eq!(analyze_logs(""), expected);
    assert_eq!(analyze_logs_exact(""), expected);
}

#[test]
fn report_on_errors_ends_with_blank_line() {
    let expected = "Log Summary
   [error] 1 errors (1 unique)
   [warn] 0 warnings (0 unique)
   [info] 0 info messages

[ERRORS]
   panic at the disco
";
    assert_eq!(analyze_logs("panic at the disco"), expected);
    assert_eq!(analyze_logs_exact("panic at the disco"), expected);
}

#[test]
fn largest_clusters_first_and_ties_in_order() {
    let logs = "error: alpha\nerror: beta\nerror: gamma\nerror: beta\n";
    let report = analyze_logs_exact(logs);
    assert!(report.ends_with("   [×2] error: beta\n   error: alpha\n   error: gamma\n"));
}

#[test]
fn sections_are_limited() {
    let words = [
        "ant", "bee", "cat", "dog", "eel", "fox", "gnu", "hen", "ibis", "jay", "kite", "lynx",
    ];
    let mut logs = String::new();
    for word in words {
        logs.push_str(&format!("error {}\n", word));
        logs.push_str(&format!("warning {}\n", word));
    }
    let report = analyze_logs_exact(&logs);
    assert!(report.contains("   [error] 12 errors (12 unique)\n"));
    assert!(report.contains("   error jay\n   ... +2 more unique errors\n\n[WARNINGS]\n"));
    assert!(report.ends_with("   warning eel\n   ... +7 more unique warnings"));
}

#[test]
fn fallback_is_taken_on_failure_only() {
    let logs = "error: one\n";
    assert_eq!(or_exact(Some("done".to_string()), logs), "done");
    assert_eq!(or_exact(None, logs), analyze_logs_exact(logs));
}

#[test]
fn severity_by_words_whatever_the_case() {
    assert_eq!(severity("An ERROR occurred"), Severity::Error);
    assert_eq!(severity("Fatal: no space"), Severity::Error);
    assert_eq!(severity("kernel PANIC"), Severity::Error);
    assert_eq!(severity("[Warning] low disk"), Severity::Warning);
    assert_eq!(severity("Info: ok"), Severity::Info);
    assert_eq!(severity("debug: ok"), Severity::Other);
    // The more severe word wins.
    assert_eq!(severity("info: warning about an error"), Severity::Error);
    assert_eq!(severity("info: warning"), Severity::Warning);
    // Lower case is not limited to ASCII.
    assert_eq!(severity("\u{212a}ernel warn"), Severity::Warning);
    assert_eq!(severity("PAN\u{130}C"), Severity::Other);
}

#[test]
fn classification_takes_lower_case() {
    assert_eq!(classify("error"), Severity::Error);
    assert_eq!(classify("ERROR"), Severity::Other);
    assert_eq!(classify("erro"), Severity::Other);
    assert_eq!(classify(""), Severity::Other);
}

#[test]
fn normalization_removes_what_varies() {
    assert_eq!(normalize("2024-01-01 10:00:00 ERROR: x"), "ERROR: x");
    assert_eq!(normalize("2024/01/01T10:00:00.123 ERROR: x"), "ERROR: x");
    assert_eq!(normalize("ERROR 2024-01-01 10:00:00"), "ERROR <NUM>-01-01 10:00:00");
    assert_eq!(
        normalize("id 123e4567-e89b-12d3-a456-426614174000."),
        "id <UUID>."
    );
    assert_eq!(normalize("at 0x7fff12"), "at <HEX>");
    assert_eq!(normalize("took 1234 ms, then 123"), "took <NUM> ms, then 123");
    assert_eq!(normalize("open /var/log/app-1.log failed"), "open <PATH> failed");
    assert_eq!(normalize("  \t spaced \u{3000}"), "spaced");
    assert_eq!(normalize("$0 stays"), "$0 stays");
}

#[test]
fn collected_lines() {
    let log = collect("a warn\r\nb error 12345\n\nc info\nd info\ne");
    assert_eq!(log.errors, vec![("b error <NUM>".to_string(), "b error 12345".to_string())]);
    assert_eq!(log.warnings, vec![("a warn".to_string(), "a warn".to_string())]);
    assert_eq!(log.info_count, 2);
}

#[test]
fn recorded_lines() {
    let mut log = LogLines::new();
    log.record(Severity::Error, "n1".to_string(), "o1");
    log.record(Severity::Warning, "n2".to_string(), "o2");
    log.record(Severity::Info, "n3".to_string(), "o3");
    log.record(Severity::Other, "n4".to_string(), "o4");
    assert_eq!(log.errors, vec![("n1".to_string(), "o1".to_string())]);
    assert_eq!(log.warnings, vec![("n2".to_string(), "o2".to_string())]);
    assert_eq!(log.info_count, 1);
}

#[test]
fn equal_texts_share_a_cluster_in_both_analyses() {
    let lines: Vec<(String, String)> = ["x y z", "p q", "x y z", "p q", "p q", "m"]
        .iter()
        .map(|s| (s.to_string(), s.to_uppercase()))
        .collect();
    assert_eq!(exact_cluster_lines(&lines), vec![(1, 3), (0, 2), (5, 1)]);
    let sketched = sketch_cluster_lines(&lines, 63);
    assert_eq!(sketched, vec![(1, 3), (0, 2), (5, 1)]);
    assert_eq!(sketch_cluster_lines(&lines, -1), vec![(0, 6)]);
}

#[test]
fn report_ignores_final_line_feed() {
    let logs = "error: one\nwarning: two";
    let longer = format!("{}\n", logs);
    assert_eq!(analyze_logs(logs), analyze_logs(&longer));
    assert_eq!(analyze_logs_exact(logs), analyze_logs_exact(&longer));
}

/// What a report says of the counts: its lines without the exemplars.
fn counts_shown(report: &str) -> Vec<String> {
    report
        .lines()
        .map(|line| match line.strip_prefix("   [×") {
            Some(rest) => rest.split(']').next().unwrap().to_string(),
            None if line.starts_with("   error") || line.starts_with("   warn") => "1".to_string(),
            None => line.to_string(),
        })
        .collect()
}

#[test]
fn order_of_lines_leaves_exact_counts() {
    let mut lines: Vec<String> = Vec::new();
    for i in 0..40 {
        lines.push(format!("error kind{}", (i * i) % 13));
        lines.push(format!("warn kind{}", i % 7));
        lines.push("info".to_string());
    }
    let forward = analyze_logs_exact(&lines.join("\n"));
    lines.reverse();
    let backward = analyze_logs_exact(&lines.join("\n"));
    assert_ne!(forward, backward);
    assert_eq!(counts_shown(&forward), counts_shown(&backward));
}

#[test]
fn log_read_twice_doubles_counts() {
    let log = "error: a\nerror: b\nerror: b\nwarning: c\ninfo\nplain";
    let expected = "Log Summary
   [error] 6 errors (2 unique)
   [warn] 2 warnings (1 unique)
   [info] 2 info messages

[ERRORS]
   [×4] error: b
   [×2] error: a

[WARNINGS]
   [×2] warning: c";
    for once in [log.to_string(), format!("{}\n", log)] {
        let twice = format!("{}\n{}", once, once);
        assert_eq!(analyze_logs(&twice), expected);
        assert_eq!(analyze_logs_exact(&twice), expected);
    }
}

#[test]
fn leading_timestamp_never_shows() {
    for rest in ["ERROR: x", "", "2023-01-01 00:00:00 again", " /tmp/x 12345"] {
        let first = normalize(&format!("2024-01-01 10:00:00 {}", rest));
        let second = normalize(&format!("1999/12/31T23:59:59,5 {}", rest));
        assert_eq!(first, second);
    }
    assert_eq!(normalize("2024-01-01 10:00:00 ERROR: x"), normalize("ERROR: x"));
}

#[test]
fn normalizing_twice_changes_nothing_more() {
    for line in [
        "2024-01-01 10:00:00 2024-01-01 10:00:00 0xff /a/b 12345",
        " id 123e4567-e89b-12d3-a456-426614174000 at /x 0x0 9999 ",
        "plain",
    ] {
        let once = normalize(line);
        assert_eq!(normalize(&once), once);
    }
}

#[test]
fn plain_line_is_only_trimmed() {
    assert_eq!(normalize(" no pattern: 12-3 matches, 0x "), "no pattern: 12-3 matches, 0x");
}

#[test]
fn counts_add_up() {
    let lines: Vec<(String, String)> = (0..50)
        .map(|i| (format!("word{} other{}", i % 7, i % 3), String::new()))
        .collect();
    for threshold in [-1, 0, 20, 32, 40, 54, 63, 64] {
        let total: usize = sketch_cluster_lines(&lines, threshold).iter().map(|c| c.1).sum();
        assert_eq!(total, 50);
    }
    let exact = exact_cluster_lines(&lines);
    assert_eq!(exact.len(), 21);
    assert!(sketch_cluster_lines(&lines, 54).len() <= exact.len());
    assert_eq!(exact.iter().map(|c| c.1).sum::<usize>(), 50);
}
