use subtitle_lint::parser::{BlockError, Format, RawBlock, Subtitle, SubtitleReader};

fn block(lines: &[(usize, &str)]) -> RawBlock {
    RawBlock { lines: lines.iter().map(|(n, s)| (*n, s.to_string())).collect() }
}

fn feed_all(text: &str) -> Vec<Vec<(usize, String)>> {
    let mut reader = SubtitleReader::new();
    let mut blocks = Vec::new();
    for line in text.lines() {
        if let Some(r) = reader.next_block(Some(Ok(line.to_string()))) {
            blocks.push(r.ok().unwrap().lines);
        }
    }
    if let Some(r) = reader.next_block(None) {
        blocks.push(r.ok().unwrap().lines);
    }
    blocks
}

fn malformed(r: Result<Subtitle, BlockError>) -> (usize, String) {
    match r {
        Err(BlockError::Malformed { line, reason }) => (line, reason),
        _ => panic!("expected a malformed block"),
    }
}

#[test]
fn reader_splits_blocks_at_blank_lines() {
    let blocks = feed_all("\n\n1\na\n\n  \n2\nb\nc\n\n");
    assert_eq!(
        blocks,
        vec![
            vec![(3, "1".to_string()), (4, "a".to_string())],
            vec![(7, "2".to_string()), (8, "b".to_string()), (9, "c".to_string())],
        ]
    );
}

#[test]
fn reader_hands_out_the_last_block_at_the_end() {
    let blocks = feed_all("x\ny");
    assert_eq!(blocks, vec![vec![(1, "x".to_string()), (2, "y".to_string())]]);
    assert!(feed_all("").is_empty());
    assert!(feed_all("\n \n\t\n").is_empty());
}

#[test]
fn reader_counts_lines_and_drops_a_block_on_read_error() {
    let mut reader = SubtitleReader::new();
    assert!(reader.next_block(Some(Ok("1".to_string()))).is_none());
    assert_eq!(reader.lines_read(), 1);
    let err = std::io::Error::new(std::io::ErrorKind::Other, "boom");
    assert!(matches!(reader.next_block(Some(Err(err))), Some(Err(BlockError::Io(_)))));
    assert!(reader.next_block(None).is_none());
    assert_eq!(reader.lines_read(), 1);
}

#[test]
fn webvtt_header_detection() {
    assert!(block(&[(1, "WEBVTT")]).is_webvtt_header());
    assert!(block(&[(1, "\u{feff}WEBVTT - a title")]).is_webvtt_header());
    assert!(block(&[(1, "WEBVTT\tkind")]).is_webvtt_header());
    assert!(!block(&[(1, "WEBVTTX")]).is_webvtt_header());
    assert!(!block(&[(1, " WEBVTT")]).is_webvtt_header());
    assert!(!block(&[]).is_webvtt_header());
}

#[test]
fn skippable_vtt_blocks() {
    assert!(block(&[(3, "NOTE this is a comment")]).is_skippable_vtt_block());
    assert!(block(&[(3, "  STYLE")]).is_skippable_vtt_block());
    assert!(block(&[(3, "REGION")]).is_skippable_vtt_block());
    assert!(!block(&[(3, "00:01.000 --> 00:02.000")]).is_skippable_vtt_block());
    assert!(!block(&[]).is_skippable_vtt_block());
}

#[test]
fn srt_cue_is_read() {
    let sub = Subtitle::from_raw(
        &block(&[(1, "1"), (2, "00:00:01,000 --> 00:00:02,500"), (3, "Hello"), (4, "there")]),
        Format::Srt,
    )
    .ok()
    .unwrap();
    assert_eq!(sub.timing_line, 2);
    assert_eq!(sub.start.as_millis(), 1_000);
    assert_eq!(sub.end.as_millis(), 2_500);
    assert_eq!(sub.text, vec![(3, "Hello".to_string()), (4, "there".to_string())]);
}

#[test]
fn vtt_cue_with_and_without_identifier() {
    let sub = Subtitle::from_raw(
        &block(&[(5, "00:01.000 --> 00:02.000 align:start line:0"), (6, "Hi")]),
        Format::Vtt,
    )
    .ok()
    .unwrap();
    assert_eq!((sub.timing_line, sub.start.as_millis(), sub.end.as_millis()), (5, 1_000, 2_000));
    let sub = Subtitle::from_raw(
        &block(&[(5, "intro"), (6, "00:01.000 --> 00:02.000"), (7, "Hi")]),
        Format::Vtt,
    )
    .ok()
    .unwrap();
    assert_eq!(sub.timing_line, 6);
    assert_eq!(sub.text, vec![(7, "Hi".to_string())]);
}

#[test]
fn malformed_blocks_name_line_and_reason() {
    assert_eq!(malformed(Subtitle::from_raw(&block(&[]), Format::Srt)), (0, "empty block".to_string()));
    assert_eq!(
        malformed(Subtitle::from_raw(&block(&[(5, " not-a-number ")]), Format::Srt)),
        (5, "expected a numeric cue index, found \"not-a-number\"".to_string())
    );
    assert_eq!(
        malformed(Subtitle::from_raw(&block(&[(5, "7")]), Format::Srt)),
        (5, "block is missing a timing line".to_string())
    );
    assert_eq!(
        malformed(Subtitle::from_raw(&block(&[(1, "1"), (2, "00:00:01,000 - 00:00:02,000")]), Format::Srt)),
        (2, "timing line has no \"-->\": \"00:00:01,000 - 00:00:02,000\"".to_string())
    );
    assert_eq!(
        malformed(Subtitle::from_raw(&block(&[(1, "1"), (2, " 00:00:01.000 --> 00:00:02,000")]), Format::Srt)),
        (2, "could not parse start time \"00:00:01.000\"".to_string())
    );
    assert_eq!(
        malformed(Subtitle::from_raw(&block(&[(1, "1"), (2, "00:00:01,000 --> 00:00:02,000 x")]), Format::Srt)),
        (2, "could not parse end time \"00:00:02,000 x\"".to_string())
    );
    assert_eq!(
        malformed(Subtitle::from_raw(&block(&[(9, "00:01.000 -->   ")]), Format::Vtt)),
        (9, "could not parse end time \"\"".to_string())
    );
}

#[test]
fn nothing_more_after_the_end_or_blank_lines() {
    let mut reader = SubtitleReader::new();
    assert!(reader.next_block(Some(Ok("a".to_string()))).is_none());
    assert!(matches!(reader.next_block(None), Some(Ok(_))));
    assert!(reader.next_block(None).is_none());
    assert!(reader.next_block(Some(Ok("   ".to_string()))).is_none());
    assert!(reader.next_block(None).is_none());
}

#[test]
fn blocks_concatenate_to_the_nonblank_lines() {
    let text = "a\n\n \nb\nc\n\nd";
    let blocks = feed_all(text);
    let flat: Vec<(usize, String)> = blocks.into_iter().flatten().collect();
    let expected: Vec<(usize, String)> = text
        .lines()
        .enumerate()
        .filter(|(_, l)| !l.trim().is_empty())
        .map(|(i, l)| (i + 1, l.to_string()))
        .collect();
    assert_eq!(flat, expected);
}
