use lyrebird::subtitle::parse;

fn secs(ms: u64) -> f64 {
    ms as f64 / 1000.0
}

#[test]
fn parse_srt() {
    let srt = "1\n00:00:01,000 --> 00:00:04,000\nHello world\n\n2\n00:00:05,500 --> 00:00:07,000\nSecond line\n";
    let cues = parse(srt);
    assert_eq!(cues.len(), 2);
    assert_eq!(secs(cues[0].start_ms), 1.0);
    assert_eq!(secs(cues[0].end_ms), 4.0);
    assert_eq!(cues[0].text, "Hello world");
    assert_eq!(secs(cues[1].start_ms), 5.5);
}

#[test]
fn parse_vtt_with_tags() {
    let vtt = "WEBVTT\n\n00:00:01.000 --> 00:00:04.000 align:start position:0%\n<c>Hello</c> <00:00:02.000><c>world</c>\n\n";
    let cues = parse(vtt);
    assert_eq!(cues.len(), 1);
    assert_eq!(cues[0].text, "Hello world");
}

#[test]
fn dedup_rolling_captions() {
    let srt = "1\n00:00:01,000 --> 00:00:02,000\nThe scop cance canceled on us. Is that\n\n2\n00:00:02,000 --> 00:00:03,000\nThe scop cance canceled on us. Is that what happened?\n\n3\n00:00:03,000 --> 00:00:04,000\nwhat happened?\n\n4\n00:00:04,000 --> 00:00:05,000\nwhat happened? Yeah, the scop cance canceled. He\n";
    let cues = parse(srt);
    assert_eq!(cues.len(), 3);
    assert_eq!(cues[0].text, "The scop cance canceled on us. Is that");
    assert_eq!(cues[1].text, "what happened?");
    assert_eq!(secs(cues[1].end_ms), 4.0);
    assert_eq!(cues[2].text, "Yeah, the scop cance canceled. He");
}

#[test]
fn time_stamps_with_hours_and_without() {
    let vtt = "01:02:03.250 --> 62:04.5\nA\n";
    let cues = parse(vtt);
    assert_eq!(cues.len(), 1);
    assert_eq!(cues[0].start_ms, 3_723_250);
    assert_eq!(cues[0].end_ms, 3_724_500);
}

#[test]
fn bad_time_lines_are_skipped() {
    let srt = "00:00:01,000 --> x\nIgnored\n\n1:2:3:4 --> 00:00:02,000\nAlso ignored\n\n00:00:03,000 --> 00:00:04,000\nKept\n";
    let cues = parse(srt);
    assert_eq!(cues.len(), 1);
    assert_eq!(cues[0].text, "Kept");
    assert_eq!(cues[0].start_ms, 3000);
}

#[test]
fn empty_cue_text_is_dropped() {
    let vtt = "00:00:01.000 --> 00:00:02.000\n<c></c>\n\n00:00:02.000 --> 00:00:03.000\n\nloose line\n";
    let cues = parse(vtt);
    assert!(cues.is_empty());
}

#[test]
fn multi_line_cue_joined_with_spaces_and_crlf() {
    let srt = "1\r\n00:00:01,000 --> 00:00:02,000\r\n  first  \r\nsecond\r\n\r\n";
    let cues = parse(srt);
    assert_eq!(cues.len(), 1);
    assert_eq!(cues[0].text, "first second");
}

use lyrebird::subtitle::{strip_first_words, strip_tags, word_tokens};

#[test]
fn words_and_tags_helpers() {
    assert_eq!(word_tokens("Don't STOP, now!"), vec!["don't".to_string(), "stop".to_string(), "now".to_string()]);
    assert_eq!(strip_first_words("well, hello there!", 1), "hello there!");
    assert_eq!(strip_first_words("a b", 5), "");
    assert_eq!(strip_tags("<c.colorE5E5E5>hi</c> <00:00:01.000>there"), "hi there");
}

#[test]
fn time_stamps_read_like_floats() {
    let vtt = "WEBVTT\n\n+00:01.5e0 --> 00:2e1\nfirst\n\n00:00:01.25E+1 --> 00:00:125e-1\nsecond\n\n00:-1.0 --> 00:02.000\nnegative\n\n00:inf --> 00:03.000\ninfinite\n\n00:1e --> 00:03.000\nbare exponent\n";
    let cues = parse(vtt);
    assert_eq!(cues.len(), 2);
    assert_eq!((cues[0].start_ms, cues[0].end_ms), (1500, 20000));
    assert_eq!(cues[0].text, "first");
    assert_eq!((cues[1].start_ms, cues[1].end_ms), (12500, 12500));
    assert_eq!(cues[1].text, "second");
}
