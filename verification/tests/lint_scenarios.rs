// Each scenario of the command-line tool, run through the library on the
// lines of a small subtitle file, with the findings rendered the way the
// tool prints them.
use subtitle_lint::config::Config;
use subtitle_lint::linter::{has_errors, lint, Finding};
use subtitle_lint::report::render_text;

fn lines(text: &str) -> Vec<String> {
    text.lines().map(|l| l.to_string()).collect()
}

fn render(path: &str, findings: &Vec<Finding>) -> String {
    render_text(path, findings)
}

fn run(text: &str) -> (String, i32) {
    let findings = lint(&lines(text), &Config::default());
    let code = if has_errors(&findings) { 1 } else { 0 };
    (render("f.srt", &findings), code)
}

#[test]
fn backwards_timing_is_an_error() {
    let (stdout, code) = run("1\n00:00:05,000 --> 00:00:03,000\nBackwards\n");
    assert_eq!(stdout, "f.srt:2: error: end time 00:00:03,000 is not after start time 00:00:05,000\n");
    assert_eq!(code, 1);
}

#[test]
fn overlap_is_a_warning() {
    let (stdout, code) = run(
        "1\n00:00:01,000 --> 00:00:04,000\nFirst\n\n2\n00:00:03,000 --> 00:00:05,000\nSecond\n",
    );
    assert_eq!(
        stdout,
        "f.srt:6: warning: cue starts at 00:00:03,000 before the previous cue ends at 00:00:04,000\n"
    );
    assert_eq!(code, 0);
}

#[test]
fn empty_cue_is_a_warning() {
    let (stdout, code) = run("1\n00:00:01,000 --> 00:00:02,000\n");
    assert_eq!(stdout, "f.srt:2: warning: cue has a timing line but no text\n");
    assert_eq!(code, 0);
}

#[test]
fn long_line_is_a_warning() {
    let (stdout, code) = run(
        "1\n00:00:01,000 --> 00:00:02,000\nThis line of subtitle text is far too long to read comfortably\n",
    );
    assert_eq!(code, 0);
    assert!(stdout.starts_with("f.srt:3: warning: line is "), "unexpected output: {}", stdout);
    assert!(stdout.contains("longer than the recommended 42"), "unexpected output: {}", stdout);
    assert_eq!(stdout, "f.srt:3: warning: line is 62 characters, longer than the recommended 42\n");
}

#[test]
fn identical_text_is_flagged() {
    let (stdout, code) = run(
        "1\n00:00:01,000 --> 00:00:02,000\nSame words\n\n2\n00:00:03,000 --> 00:00:04,000\nSame words\n",
    );
    assert_eq!(stdout, "f.srt:7: warning: cue text is identical to the previous cue at line 3\n");
    assert_eq!(code, 0);
}

#[test]
fn punctuation_only_difference_is_flagged() {
    let (stdout, code) = run(
        "1\n00:00:01,000 --> 00:00:02,000\nHello, world!\n\n2\n00:00:03,000 --> 00:00:04,000\nhello   world\n",
    );
    assert_eq!(
        stdout,
        "f.srt:7: warning: cue text is nearly identical to the previous cue at line 3 (differs only in case or punctuation)\n"
    );
    assert_eq!(code, 0);
}

#[test]
fn near_duplicate_by_edit_distance_is_flagged() {
    let (stdout, code) = run(
        "1\n00:00:01,000 --> 00:00:02,000\nI will be right back\n\n2\n00:00:03,000 --> 00:00:04,000\nI'll be right back\n",
    );
    assert_eq!(stdout, "f.srt:7: warning: cue text is nearly identical to the previous cue at line 3\n");
    assert_eq!(code, 0);
}

#[test]
fn malformed_cue_index_is_an_error_and_does_not_stop_the_run() {
    let (stdout, code) = run(
        "1\n00:00:01,000 --> 00:00:02,000\nFine\n\nnot-a-number\n00:00:03,000 --> 00:00:04,000\nBroken\n\n3\n00:00:05,000 --> 00:00:04,000\nAfter\n",
    );
    assert_eq!(
        stdout,
        "f.srt:5: error: expected a numeric cue index, found \"not-a-number\"\nf.srt:10: error: end time 00:00:04,000 is not after start time 00:00:05,000\n"
    );
    assert_eq!(code, 1);
}

#[test]
fn clean_vtt_has_no_findings() {
    let (stdout, code) = run(
        "WEBVTT\n\n00:00.000 --> 00:01.000\nHi\n\n00:01.000 --> 00:02.500 align:start line:0\nThere\n",
    );
    assert_eq!(stdout, "");
    assert_eq!(code, 0);
}

#[test]
fn vtt_notes_style_and_identifiers_are_handled() {
    let (stdout, code) = run(
        "\u{feff}WEBVTT - with extras\nKind: captions\n\nSTYLE\n::cue { color: yellow }\n\nNOTE a comment\nspanning lines\n\nREGION\nid:fred\n\nintro\n00:00:01.000 --> 00:00:02.000 region:fred\nHello\n\n2\n00:02.000 --> 00:03.000\nGoodbye\n",
    );
    assert_eq!(stdout, "");
    assert_eq!(code, 0);
}

#[test]
fn srt_file_is_not_read_as_vtt_and_notes_are_cues_there() {
    let (stdout, code) = run("NOTE\n00:00:01,000 --> 00:00:02,000\nText\n");
    assert_eq!(stdout, "f.srt:1: error: expected a numeric cue index, found \"NOTE\"\n");
    assert_eq!(code, 1);
}

#[test]
fn empty_input_has_no_findings() {
    assert_eq!(run(""), (String::new(), 0));
    assert_eq!(run("\n\n"), (String::new(), 0));
}

#[test]
fn dot_timestamps_in_srt_are_malformed() {
    let (stdout, code) = run("1\n00:00:01.000 --> 00:00:02,000\nText\n");
    assert_eq!(stdout, "f.srt:2: error: could not parse start time \"00:00:01.000\"\n");
    assert_eq!(code, 1);
}

#[test]
fn findings_of_one_cue_come_in_rule_order() {
    let (stdout, _) = run(
        "1\n00:00:01,000 --> 00:00:09,000\nOne two three\n\n2\n00:00:08,000 --> 00:00:07,000\nOne two three\nThis second line is certainly more than forty-two characters\n",
    );
    assert_eq!(
        stdout,
        "f.srt:6: error: end time 00:00:07,000 is not after start time 00:00:08,000\n\
         f.srt:6: warning: cue starts at 00:00:08,000 before the previous cue ends at 00:00:09,000\n\
         f.srt:8: warning: line is 60 characters, longer than the recommended 42\n"
    );
}

#[test]
fn config_switches_rules_off_and_sets_the_line_length() {
    let text = "1\n00:00:01,000 --> 00:00:04,000\nSame words here\n\n2\n00:00:03,000 --> 00:00:05,000\nSame words here\n";
    let config = Config { max_line_length: 10, check_overlap: false, check_duplicate_text: false };
    let findings = lint(&lines(text), &config);
    assert_eq!(
        render("f.srt", &findings),
        "f.srt:3: warning: line is 15 characters, longer than the recommended 10\n\
         f.srt:7: warning: line is 15 characters, longer than the recommended 10\n"
    );
}
