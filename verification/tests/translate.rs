use lyrebird::translate::{
    assign_sentence_zh, build_word_stream, clean_sentence_text, clean_sentence_text_checked, clean_word_stream,
    is_sentence_end, local_paragraph_breaks, snap_zh_boundary, split_sentences_from_stream, CueFull,
    CueZh, SentSpan,
};

fn ms(secs: f64) -> u64 {
    (secs * 1000.0).round() as u64
}

fn cue(idx: i64, start: f64, end: f64, text: &str) -> CueFull {
    CueFull {
        idx,
        start_ms: ms(start),
        end_ms: ms(end),
        text_en: text.to_string(),
    }
}

#[test]
fn word_stream_splits_complete_sentences() {
    let cues = vec![
        cue(0, 0.0, 2.0, "these games have to end. I think that"),
        cue(1, 2.0, 5.0, "they have to choose between either renouncing this quote"),
        cue(2, 5.0, 7.0, "whistleblower as a doomer op. He's basically an entry-level"),
        cue(3, 7.0, 10.0, "no nothing who's engaging in hyperbole and science fiction. It's all vibes. In"),
        cue(4, 10.0, 13.0, "other words, there's not facts and evidence behind this, right?"),
    ];
    let stream = build_word_stream(&cues);
    let sents = split_sentences_from_stream(&stream);
    assert_eq!(sents.len(), 5);
    assert_eq!(sents[0].text, "these games have to end.");
    assert_eq!(
        sents[1].text,
        "I think that they have to choose between either renouncing this quote whistleblower as a doomer op."
    );
    assert_eq!(
        sents[2].text,
        "He's basically an entry-level no nothing who's engaging in hyperbole and science fiction."
    );
    assert_eq!(sents[3].text, "It's all vibes.");
    assert!(sents[4].text.starts_with("In other words,"));
    let start = sents[1].start_ms as f64 / 1000.0;
    assert!(start > 0.0 && start < 2.0);
    assert_eq!((sents[1].cue_from, sents[1].cue_to), (0, 2));
}

#[test]
fn abbreviations_and_decimals_not_split() {
    let cues = vec![cue(0, 0.0, 4.0, "Mr. Smith paid 3.5 dollars. Done")];
    let stream = build_word_stream(&cues);
    let sents = split_sentences_from_stream(&stream);
    assert_eq!(sents.len(), 2);
    assert_eq!(sents[0].text, "Mr. Smith paid 3.5 dollars.");
}

fn structure_sents(text: &str) -> Vec<String> {
    let cues = vec![cue(0, 0.0, 10.0, text)];
    let words = clean_word_stream(&build_word_stream(&cues));
    split_sentences_from_stream(&words)
        .into_iter()
        .map(|s| clean_sentence_text(&s.text))
        .filter(|t| !t.is_empty())
        .collect()
}

#[test]
fn filler_words_and_repeats_removed() {
    let sents = structure_sents("um I I I think that, uh, they should go.");
    assert_eq!(sents, vec!["I think that, they should go."]);
}

#[test]
fn stutter_fragments_removed() {
    let sents = structure_sents("I wh- what is this?");
    assert_eq!(sents, vec!["I what is this?"]);
}

#[test]
fn filler_phrases_need_commas() {
    let sents = structure_sents("It was, you know, difficult. I will let you know.");
    assert_eq!(sents, vec!["It was, difficult.", "I will let you know."]);
}

#[test]
fn openers_and_trailing_phrases_removed() {
    let sents = structure_sents("Well, you know, that's it, I mean.");
    assert_eq!(sents, vec!["That's it."]);
}

#[test]
fn emphasis_repetition_kept() {
    let sents = structure_sents("It was very, very good. No, no way.");
    assert_eq!(sents, vec!["It was very, very good.", "No, no way."]);
}

#[test]
fn multiword_repeats_removed() {
    let sents = structure_sents("I sort of sort of wanted to go.");
    assert_eq!(sents, vec!["I sort of wanted to go."]);
}

fn sent(id: i64, start: f64, end: f64, cf: i64, ct: i64) -> SentSpan {
    SentSpan {
        id,
        start_ms: ms(start),
        end_ms: ms(end),
        cue_from: cf,
        cue_to: ct,
    }
}

fn cuez(idx: i64, start: f64, end: f64, zh: &str) -> CueZh {
    CueZh {
        idx,
        start_ms: ms(start),
        end_ms: ms(end),
        text_zh: zh.to_string(),
    }
}

#[test]
fn shared_cue_zh_partitioned_without_duplication() {
    let sents = vec![sent(1, 0.0, 2.0, 0, 0), sent(2, 2.0, 4.0, 0, 0)];
    let cues = vec![cuez(0, 0.0, 4.0, "第一句话。第二句话。")];
    let out = assign_sentence_zh(&sents, &cues);
    assert_eq!(out[0].1, "第一句话。");
    assert_eq!(out[1].1, "第二句话。");
}

#[test]
fn three_sentences_sharing_one_cue() {
    let sents = vec![
        sent(1, 0.0, 3.0, 0, 0),
        sent(2, 3.0, 6.0, 0, 0),
        sent(3, 6.0, 10.0, 0, 0),
    ];
    let cues = vec![cuez(0, 0.0, 10.0, "第一句。第二句。第三句。")];
    let out = assign_sentence_zh(&sents, &cues);
    assert_eq!(out[0].1, "第一句。");
    assert_eq!(out[1].1, "第二句。");
    assert_eq!(out[2].1, "第三句。");
}

#[test]
fn partition_without_punctuation_still_complementary() {
    let sents = vec![sent(1, 0.0, 2.0, 0, 0), sent(2, 2.0, 4.0, 0, 0)];
    let cues = vec![cuez(0, 0.0, 4.0, "abcdefgh")];
    let out = assign_sentence_zh(&sents, &cues);
    assert_eq!(out[0].1, "abcd");
    assert_eq!(out[1].1, "efgh");
}

#[test]
fn cue_fully_inside_sentence_takes_all() {
    let sents = vec![sent(1, 0.0, 10.0, 0, 2)];
    let cues = vec![
        cuez(0, 0.0, 2.0, "甲。"),
        cuez(1, 2.0, 5.0, "乙。"),
        cuez(2, 5.0, 10.0, "丙。"),
    ];
    let out = assign_sentence_zh(&sents, &cues);
    assert_eq!(out[0].1, "甲。乙。丙。");
}

#[test]
fn sentence_end_rules() {
    assert!(is_sentence_end("end."));
    assert!(is_sentence_end("really?\""));
    assert!(is_sentence_end("3.5!"));
    assert!(!is_sentence_end("3.5."));
    assert!(!is_sentence_end("Mr."));
    assert!(!is_sentence_end("e.g."));
    assert!(!is_sentence_end("word"));
    assert!(!is_sentence_end(""));
}

#[test]
fn word_times_share_the_cue_span() {
    let cues = vec![cue(3, 1.0, 1.05, "a b"), cue(4, 2.0, 5.0, "x y z")];
    let ws = build_word_stream(&cues);
    assert_eq!(ws.len(), 5);
    // a span under 100 ms is stretched to 100 ms
    assert_eq!((ws[0].start_ms, ws[0].end_ms), (1000, 1050));
    assert_eq!((ws[1].start_ms, ws[1].end_ms), (1050, 1100));
    assert_eq!((ws[2].start_ms, ws[2].end_ms, ws[2].cue_idx), (2000, 3000, 4));
    assert_eq!(ws[4].end_ms, 5000);
}

#[test]
fn paragraph_breaks_after_long_gaps() {
    let cues = vec![
        cue(0, 0.0, 1.0, "One."),
        cue(1, 1.5, 2.0, "Two."),
        cue(2, 4.5, 5.0, "Three."),
    ];
    let sents = split_sentences_from_stream(&build_word_stream(&cues));
    assert_eq!(local_paragraph_breaks(&sents), vec![1]);
}

#[test]
fn snapping_to_punctuation() {
    // back up to two characters
    assert_eq!(snap_zh_boundary("一二。四五六七八", 4, 0, 8), 3);
    // forward up to eight
    assert_eq!(snap_zh_boundary("一二三四五。七八", 2, 0, 8), 6);
    // none found: the cut stays, clamped into range
    assert_eq!(snap_zh_boundary("abcdefgh", 3, 0, 8), 3);
    assert_eq!(snap_zh_boundary("abcdefgh", 20, 2, 8), 8);
    assert_eq!(snap_zh_boundary("abcdefgh", 0, 2, 8), 2);
}

#[test]
fn sentence_text_capitalized_after_opener() {
    assert_eq!(clean_sentence_text("  so, here we go "), "Here we go");
    assert_eq!(clean_sentence_text("so,here"), "So,here");
    assert_eq!(clean_sentence_text("A, YOU KNOW, b, I mean!"), "A, b!");
}

#[test]
fn words_normalized_for_filler_checks() {
    assert_eq!(lyrebird::translate::norm_word("“Um,”"), "um");
    assert_eq!(lyrebird::translate::norm_word("--"), "");
    assert_eq!(lyrebird::translate::norm_word("Éh!"), "éh");
}

#[test]
fn filler_cuts_follow_the_lowercased_byte_offsets() {
    // Plain text: the phrases are cut where they are.
    assert_eq!(clean_sentence_text_checked("well, you know, it works"), Some("It works".to_string()));
    assert_eq!(clean_sentence_text_checked("It is, I MEAN, fine, you see."), Some("It is, fine.".to_string()));
    // The Kelvin sign lowers to an ASCII `k` one byte long: the opener is
    // found in the lowered text and the cut lands two bytes further on.
    assert_eq!(clean_sentence_text_checked("you \u{212A}now, I think"), Some("W, I think".to_string()));
    // `Ⱥ` lowers to a longer `ⱥ`: the end of the phrase falls inside `é`.
    assert_eq!(clean_sentence_text_checked("Ⱥ, you know,é"), None);
}
