//! Text primitives against the standard library.

use rtk::collect::LogLines;
use rtk::report::{format_clusters, format_report, shorten};
use rtk::text::{
    chars_of, contains, join, split_lines, split_words, terminate_lines, to_decimal, trim,
};

const SAMPLES: [&str; 16] = [
    "",
    "\n",
    "\r\n",
    "\r",
    "a",
    "a\n",
    "a\r\nb",
    "a\r",
    "a\r\r\n\rb\n\r",
    "\n\n a b \n",
    "  \t",
    " héllo\u{a0}wörld\u{2003}x ",
    "\u{3000}日本 語\u{85}",
    "zero\u{200b}width",
    "one\u{b}two\u{c}three",
    "\u{feff}bom \u{180e}",
];

#[test]
fn lines_as_in_std() {
    for s in SAMPLES {
        let expected: Vec<&str> = s.lines().collect();
        assert_eq!(split_lines(s), expected, "{:?}", s);
    }
}

#[test]
fn words_as_in_std() {
    for s in SAMPLES {
        let expected: Vec<&str> = s.split_whitespace().collect();
        assert_eq!(split_words(s), expected, "{:?}", s);
    }
}

#[test]
fn trim_as_in_std() {
    for s in SAMPLES {
        assert_eq!(trim(s), s.trim(), "{:?}", s);
    }
}

#[test]
fn white_space_is_the_documented_set() {
    let white = |c: char| {
        matches!(
            c as u32,
            0x9..=0xd | 0x20 | 0x85 | 0xa0 | 0x1680 | 0x2000..=0x200a | 0x2028 | 0x2029 | 0x202f
                | 0x205f | 0x3000
        )
    };
    for code in 0..=0x10ffffu32 {
        if let Some(c) = char::from_u32(code) {
            assert_eq!(c.is_whitespace(), white(c), "{:x}", code);
        }
    }
    for c in ['\u{9}', '\u{85}', '\u{1680}', '\u{200a}', '\u{202f}', '\u{3000}'] {
        assert_eq!(split_words(&format!("a{}b", c)).len(), 2);
    }
    for c in ['\u{200b}', '\u{180e}', '\u{8}', 'x'] {
        assert_eq!(split_words(&format!("a{}b", c)).len(), 1);
    }
}

#[test]
fn search_as_in_std() {
    for hay in ["", "warn", "a warn", "warnwarn", "wawarn", "war", "wärn"] {
        for needle in ["", "warn", "wa", "n", "ä", "warns"] {
            let found = contains(&chars_of(hay), needle);
            assert_eq!(found, hay.contains(needle), "{} {}", hay, needle);
        }
    }
}

#[test]
fn decimal_as_in_std() {
    for n in [0, 1, 9, 10, 11, 99, 100, 1234567890, usize::MAX] {
        assert_eq!(to_decimal(n), n.to_string());
    }
}

#[test]
fn joining() {
    let parts = |p: &[&str]| p.iter().map(|s| s.to_string()).collect::<Vec<String>>();
    for p in [vec![], vec!["a"], vec!["", ""], vec!["a", "b", "c"]] {
        assert_eq!(join(&parts(&p), "--"), p.join("--"));
    }
}

#[test]
fn terminated_lines_read_back() {
    let lines: Vec<String> = vec!["a".to_string(), String::new(), " b c".to_string()];
    let text = terminate_lines(&lines);
    assert_eq!(text, "a\n\n b c\n");
    assert_eq!(split_lines(&text), lines);
    assert_eq!(terminate_lines(&Vec::new()), "");
}

#[test]
fn final_line_feed_is_optional() {
    assert_eq!(split_lines("a\n\nb\n"), split_lines("a\n\nb"));
    assert_ne!(split_lines("a\r\n"), split_lines("a\r"));
}

#[test]
fn trimming_keeps_words_and_is_done_once() {
    for s in SAMPLES {
        let once = trim(s);
        assert_eq!(trim(&once), once);
        assert_eq!(split_words(&once), split_words(s));
    }
}

#[test]
fn long_lines_are_cut() {
    let just = "x".repeat(100);
    assert_eq!(shorten(&just), just);
    let over = "x".repeat(101);
    assert_eq!(shorten(&over), format!("{}...", "x".repeat(97)));
    // The limit is in bytes, the cut in characters.
    let wide = "é".repeat(51);
    assert_eq!(shorten(&wide), format!("{}...", wide));
    let wider = "é".repeat(98);
    assert_eq!(shorten(&wider), format!("{}...", "é".repeat(97)));
}

#[test]
fn clusters_are_shown_up_to_the_limit() {
    let lines = vec![
        ("k0".to_string(), "zero".to_string()),
        ("k1".to_string(), "one".to_string()),
    ];
    let mut result = vec!["head".to_string()];
    format_clusters(&lines, &[(1, 12), (0, 1), (7, 7)], 2, &mut result);
    assert_eq!(result, vec!["head", "   [×12] one", "   zero"]);
    format_clusters(&lines, &[(0, 2)], 0, &mut result);
    assert_eq!(result.len(), 3);
}

#[test]
fn report_from_clusters() {
    let mut log = LogLines::new();
    log.warnings.push(("k".to_string(), "warn a".to_string()));
    log.info_count = 3;
    assert_eq!(
        format_report(&log, &[], &[(0, 1)]),
        "Log Summary\n   [error] 0 errors (0 unique)\n   [warn] 1 warnings (1 unique)\n   \
         [info] 3 info messages\n\n[WARNINGS]\n   warn a"
    );
}
