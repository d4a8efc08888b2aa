use subtitle_lint::linter::{Finding, Severity};
use subtitle_lint::report::{render_json, render_text};

fn findings() -> Vec<Finding> {
    vec![
        Finding::new(2, Severity::Error, "end time 00:00:03,000 is not after start time 00:00:05,000".to_string()),
        Finding::new(7, Severity::Warning, "say \"hi\"\tthere".to_string()),
    ]
}

#[test]
fn text_report_lines() {
    assert_eq!(
        render_text("a.srt", &findings()),
        "a.srt:2: error: end time 00:00:03,000 is not after start time 00:00:05,000\na.srt:7: warning: say \"hi\"\tthere\n"
    );
    assert_eq!(render_text("a.srt", &vec![]), "");
}

#[test]
fn json_report_document() {
    assert_eq!(
        render_json("dir\\a.srt", &findings()),
        "[\n  {\"file\": \"dir\\\\a.srt\", \"line\": 2, \"severity\": \"error\", \"message\": \"end time 00:00:03,000 is not after start time 00:00:05,000\"},\n  {\"file\": \"dir\\\\a.srt\", \"line\": 7, \"severity\": \"warning\", \"message\": \"say \\\"hi\\\"\\tthere\"}\n]\n"
    );
    assert_eq!(render_json("a.srt", &vec![]), "[\n]\n");
}
