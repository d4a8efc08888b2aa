use subtitle_lint::timestamp::Timestamp;

fn ms(raw: &str) -> Option<u32> {
    Timestamp::parse(raw).map(|t| t.as_millis())
}

fn vtt_ms(raw: &str) -> Option<u32> {
    Timestamp::parse_vtt(raw).map(|t| t.as_millis())
}

#[test]
fn parses_srt_timestamps() {
    assert_eq!(ms("00:00:00,000"), Some(0));
    assert_eq!(ms("01:02:03,004"), Some(3_723_004));
    assert_eq!(ms("  00:00:05,000 "), Some(5_000));
    assert_eq!(ms("123:00:00,000"), Some(442_800_000));
    assert_eq!(ms("+1:0:0,001"), Some(3_600_001));
}

#[test]
fn rejects_malformed_srt_timestamps() {
    assert_eq!(ms("00:00:05.000"), None);
    assert_eq!(ms("00:00:05,00"), None);
    assert_eq!(ms("00:00:05,0000"), None);
    assert_eq!(ms("00:00:05,+00"), None);
    assert_eq!(ms("00:60:00,000"), None);
    assert_eq!(ms("00:00:60,000"), None);
    assert_eq!(ms("00:00,000"), None);
    assert_eq!(ms("00:00:00:00,000"), None);
    assert_eq!(ms("aa:00:00,000"), None);
    assert_eq!(ms("-1:00:00,000"), None);
    assert_eq!(ms(""), None);
}

#[test]
fn srt_timestamps_beyond_u32_milliseconds_are_not_read() {
    // 1193:02:47,295 is the last millisecond a u32 holds.
    assert_eq!(ms("1193:02:47,295"), Some(u32::MAX));
    assert_eq!(ms("1193:02:47,296"), None);
    assert_eq!(ms("4294967296:00:00,000"), None);
}

#[test]
fn parses_vtt_timestamps() {
    assert_eq!(vtt_ms("00:01.500"), Some(1_500));
    assert_eq!(vtt_ms("01:00:01.500"), Some(3_601_500));
    assert_eq!(vtt_ms(" 00:01.500\t"), Some(1_500));
}

#[test]
fn rejects_malformed_vtt_timestamps() {
    assert_eq!(vtt_ms("00:01,500"), None);
    assert_eq!(vtt_ms("01.500"), None);
    assert_eq!(vtt_ms("1:01:01:01.500"), None);
    assert_eq!(vtt_ms("61:00.000"), None);
}

#[test]
fn displays_as_srt() {
    assert_eq!(Timestamp::parse("00:00:03,000").unwrap().to_string(), "00:00:03,000");
    assert_eq!(Timestamp::parse("1:2:3,004").unwrap().to_string(), "01:02:03,004");
    assert_eq!(Timestamp::parse_vtt("00:01.500").unwrap().to_string(), "00:00:01,500");
    assert_eq!(Timestamp::parse("123:59:59,999").unwrap().to_string(), "123:59:59,999");
}

#[test]
fn display_then_parse_gives_back_the_timestamp() {
    for raw in ["00:00:00,000", "07:08:09,010", "1193:02:47,295", "99:59:59,999"] {
        let t = Timestamp::parse(raw).unwrap();
        assert_eq!(Timestamp::parse(&t.to_string()), Some(t));
    }
}

#[test]
fn ordering_follows_milliseconds() {
    let a = Timestamp::parse("00:00:01,000").unwrap();
    let b = Timestamp::parse("00:00:01,001").unwrap();
    assert!(a < b);
}

#[test]
fn equality_and_order_go_by_milliseconds() {
    let a = Timestamp::parse("00:01:00,000").unwrap();
    let b = Timestamp::parse_vtt("01:00.000").unwrap();
    let c = Timestamp::parse("00:00:59,999").unwrap();
    assert!(a == b && !(a < b) && a <= b && a >= b);
    assert!(c < a && a > c && c != a);
    assert_eq!(a.partial_cmp(&c), Some(std::cmp::Ordering::Greater));
    assert_eq!(a.cmp(&c), std::cmp::Ordering::Greater);
}

#[test]
fn vtt_reading_is_srt_reading_with_a_dot() {
    for raw in ["01:02:03,004", " 1:2:3,999", "00:61:00,000", "x:00:00,000", "00:00:00,0000"] {
        let dotted = raw.replace(',', ".");
        assert_eq!(Timestamp::parse_vtt(&dotted), Timestamp::parse(raw));
    }
}
