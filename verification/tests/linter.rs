use subtitle_lint::config::Config;
use subtitle_lint::json::json_escape;
use subtitle_lint::linter::{
    has_errors, levenshtein, normalize_chars, normalize_for_comparison, Finding, Linter, Severity,
};

#[test]
fn levenshtein_distances() {
    assert_eq!(levenshtein("kitten", "sitting"), 3);
    assert_eq!(levenshtein("", "abc"), 3);
    assert_eq!(levenshtein("abc", ""), 3);
    assert_eq!(levenshtein("same", "same"), 0);
    assert_eq!(levenshtein("flaw", "lawn"), 2);
    assert_eq!(levenshtein("héllo", "hello"), 1);
}

#[test]
fn normalization_drops_case_and_punctuation() {
    assert_eq!(normalize_for_comparison("Hello, world!"), "hello world");
    assert_eq!(normalize_for_comparison("hello world"), "hello world");
    assert_eq!(normalize_for_comparison("  Don't   STOP --  now. "), "dont stop now");
    assert_eq!(normalize_for_comparison("...!?"), "");
    assert_eq!(normalize_for_comparison("ÀB\tc"), "àb c");
}

#[test]
fn json_escaping() {
    assert_eq!(json_escape("plain"), "plain");
    assert_eq!(json_escape("a\"b\\c"), "a\\\"b\\\\c");
    assert_eq!(json_escape("l1\nl2\r\t"), "l1\\nl2\\r\\t");
    assert_eq!(json_escape("\u{1}\u{1f}"), "\\u0001\\u001f");
    assert_eq!(json_escape("é"), "é");
}

#[test]
fn severity_words() {
    assert_eq!(Severity::Error.to_string(), "error");
    assert_eq!(Severity::Warning.to_string(), "warning");
}

#[test]
fn errors_decide_the_exit_status() {
    let w = Finding::new(1, Severity::Warning, "w".to_string());
    let e = Finding::new(2, Severity::Error, "e".to_string());
    assert!(!has_errors(&vec![]));
    assert!(!has_errors(&vec![w]));
    let w = Finding::new(1, Severity::Warning, "w".to_string());
    assert!(has_errors(&vec![w, e]));
}

#[test]
fn streaming_linter_stops_at_a_read_error() {
    let mut linter = Linter::new(Config::default());
    for line in ["1", "00:00:05,000 --> 00:00:03,000", "Backwards", "", "2"] {
        linter.feed(Some(Ok(line.to_string())));
    }
    assert!(!linter.is_done());
    assert_eq!(linter.lines_read(), 5);
    let err = std::io::Error::new(std::io::ErrorKind::InvalidData, "stream did not contain valid UTF-8");
    linter.feed(Some(Err(err)));
    assert!(linter.is_done());
    linter.feed(Some(Ok("ignored".to_string())));
    linter.feed(None);
    let findings = linter.into_findings();
    assert_eq!(findings.len(), 2);
    assert_eq!((findings[0].line, findings[0].severity), (2, Severity::Error));
    assert_eq!((findings[1].line, findings[1].severity), (0, Severity::Error));
    assert_eq!(findings[1].message, "read error: stream did not contain valid UTF-8");
}

#[test]
fn streaming_linter_matches_the_batch_linter() {
    let text = "WEBVTT\n\nNOTE x\n\n00:01.000 --> 00:00.500\nHi\n\n00:00.200 --> 00:02.000\nHi\n";
    let lines: Vec<String> = text.lines().map(|l| l.to_string()).collect();
    let batch = subtitle_lint::linter::lint(&lines, &Config::default());
    let mut linter = Linter::new(Config::default());
    for l in &lines {
        linter.feed(Some(Ok(l.clone())));
    }
    linter.feed(None);
    assert!(linter.is_done());
    let streamed = linter.into_findings();
    let key = |f: &Finding| (f.line, f.severity, f.message.clone());
    assert_eq!(batch.iter().map(key).collect::<Vec<_>>(), streamed.iter().map(key).collect::<Vec<_>>());
    assert_eq!(batch.len(), 3);
}

#[test]
fn normalize_chars_takes_the_character_answers() {
    let chars: Vec<char> = "Ab, c".chars().collect();
    let alnum = vec![true, true, false, false, true];
    let lower = vec![vec!['a'], vec!['b'], vec![], vec![], vec!['c']];
    assert_eq!(normalize_chars(&chars, &alnum, &lower), "ab c");
    // the answers decide, whatever the characters are
    let alnum = vec![false, true, false, false, false];
    assert_eq!(normalize_chars(&chars, &alnum, &lower), "b");
}

#[test]
fn normalization_of_non_ascii_lowercase() {
    assert_eq!(normalize_for_comparison("ÉTÉ!"), "été");
    assert_eq!(normalize_for_comparison("Straße  ÖL"), "straße öl");
}

#[test]
fn edit_distance_laws_on_examples() {
    for (a, b) in [("kitten", "sitting"), ("", "x"), ("abc", "abc"), ("ab", "ba"), ("héllo", "hello!")] {
        let d = levenshtein(a, b);
        assert_eq!(d, levenshtein(b, a));
        assert_eq!(d == 0, a == b);
        let (la, lb) = (a.chars().count(), b.chars().count());
        assert!(la.abs_diff(lb) <= d && d <= la.max(lb));
    }
}

#[test]
fn read_error_keeps_completed_cues_and_drops_the_unfinished_one() {
    let mut linter = Linter::new(Config::default());
    for line in ["1", "00:00:05,000 --> 00:00:03,000", "Backwards", "", "2", "00:00:09,000 --> 00:00:01,000"] {
        linter.feed(Some(Ok(line.to_string())));
    }
    let err = std::io::Error::new(std::io::ErrorKind::Other, "disk gone");
    linter.feed(Some(Err(err)));
    linter.feed(None);
    let findings = linter.into_findings();
    let lines: Vec<usize> = findings.iter().map(|f| f.line).collect();
    assert_eq!(lines, vec![2, 0]);
    assert_eq!(findings[1].message, "read error: disk gone");
}
