use lyrebird::export::esc_filter_path;
use lyrebird::channel::{channel_page_from, channel_videos_url, RawPlaylist};
use lyrebird::ingest::{parse_sizes, DlTracker};
use lyrebird::subtitle::{parse, strip_first_words, strip_tags, word_tokens};
use lyrebird::translate::{
    assign_sentence_zh, build_word_stream, clean_word_stream, split_sentences_from_stream, CueFull, CueZh, SentSpan,
};
use lyrebird::words::{apply_review, pick_review_cards, ReviewOutcome, ReviewState};

fn sent(id: i64, start_ms: u64, end_ms: u64, cue_from: i64, cue_to: i64) -> SentSpan {
    SentSpan { id, start_ms, end_ms, cue_from, cue_to }
}

fn cuez(idx: i64, start_ms: u64, end_ms: u64, zh: &str) -> CueZh {
    CueZh { idx, start_ms, end_ms, text_zh: zh.to_string() }
}

#[test]
fn shared_captions_are_split_without_overlap_or_gap() {
    // Three sentences over two captions: each caption's pieces, in order,
    // give back the caption's whole text.
    let sents = vec![sent(1, 0, 1500, 0, 0), sent(2, 1500, 3500, 0, 1), sent(3, 3500, 6000, 1, 1)];
    let cues = vec![cuez(0, 0, 3000, "一二三四五六"), cuez(1, 3000, 6000, "七八九十")];
    let out = assign_sentence_zh(&sents, &cues);
    let joined: String = out.iter().map(|(_, t)| t.as_str()).collect();
    assert_eq!(joined, "一二三四五六七八九十");
    assert_eq!(out.iter().map(|(id, _)| *id).collect::<Vec<_>>(), vec![1, 2, 3]);
}

#[test]
fn sentence_reaching_caption_end_takes_the_rest() {
    let sents = vec![sent(1, 0, 1000, 0, 0), sent(2, 1000, 3995, 0, 0), sent(3, 4000, 5000, 0, 0)];
    let cues = vec![cuez(0, 0, 4000, "abcdefgh")];
    let out = assign_sentence_zh(&sents, &cues);
    assert_eq!(out, vec![(1, "ab".to_string()), (2, "cdefgh".to_string())]);
}

#[test]
fn cleaning_words_only_leaves_words_out() {
    let cues = vec![CueFull { idx: 3, start_ms: 0, end_ms: 9000, text_en: "um so so I wh- what uh is it".into() }];
    let all = build_word_stream(&cues);
    let kept = clean_word_stream(&all);
    let mut j = 0;
    for w in &kept {
        while j < all.len() && !(all[j].text == w.text && all[j].start_ms == w.start_ms) {
            j += 1;
        }
        assert!(j < all.len(), "{} is not from the input in order", w.text);
        j += 1;
    }
    let texts: Vec<&str> = kept.iter().map(|w| w.text.as_str()).collect();
    assert_eq!(texts, vec!["so", "I", "what", "is", "it"]);
}

#[test]
fn rolling_dedup_never_adds_cues_or_empty_text() {
    let srt = "00:00:01,000 --> 00:00:02,000\nhello there\n\n00:00:02,000 --> 00:00:03,000\nhello there\n\n00:00:03,000 --> 00:00:04,000\nthere <b>friend</b>\n";
    let cues = parse(srt);
    assert!(cues.len() <= 3);
    assert_eq!(cues.len(), 2);
    assert!(cues.iter().all(|c| !c.text.is_empty()));
    assert_eq!(cues[0].end_ms, 3000);
    assert_eq!(cues[1].text, "friend");
    let stripped = strip_tags("a<b>c</b>>d<");
    assert_eq!(stripped, "acd");
    assert!(!stripped.contains('<') && !stripped.contains('>'));
}

#[test]
fn normalising_a_channel_url_twice_changes_nothing() {
    for u in ["https://x/@a", " https://x/@a/streams/ ", "", "  /", "https://x/channel/UC1/"] {
        let once = channel_videos_url(u);
        assert_eq!(channel_videos_url(&once), once);
    }
}

#[test]
fn completed_bytes_never_go_back() {
    let mut t = DlTracker::default();
    t.new_pass("a.mp4");
    let (dl, total) = parse_sizes("[download]  20.0% of  10.00MiB at 1MiB/s").unwrap();
    t.update(dl, total);
    let before = t.completed;
    t.new_pass("a.m4a");
    assert!(t.completed >= before);
    assert_eq!(t.completed, 10 * 1024 * 1024);
    t.update(5, None);
    assert_eq!(t.completed, 10 * 1024 * 1024);
    t.new_pass("cover.jpg");
    assert_eq!(t.combined(), None);
}

#[test]
fn mastery_needs_three_reviews() {
    let mut s = ReviewState { review_count: 0, fail_streak: 2, mastered: 0 };
    s = apply_review(s, ReviewOutcome::Remembered);
    assert_eq!((s.review_count, s.fail_streak, s.mastered), (1, 0, 0));
    s = apply_review(s, ReviewOutcome::Remembered);
    s = apply_review(s, ReviewOutcome::Remembered);
    assert_eq!((s.review_count, s.mastered), (3, 1));
    s = apply_review(s, ReviewOutcome::Forgotten);
    assert_eq!((s.review_count, s.fail_streak, s.mastered), (3, 1, 0));
}

#[test]
fn review_cards_are_a_shuffled_cut() {
    let rows: Vec<i64> = (0..30).collect();
    let mut picked = pick_review_cards(rows.clone(), 10);
    assert_eq!(picked.len(), 10);
    picked.sort();
    picked.dedup();
    assert_eq!(picked.len(), 10);
    assert!(picked.iter().all(|x| rows.contains(x)));
    let mut all = pick_review_cards(rows.clone(), -1);
    all.sort();
    assert_eq!(all, rows);
    assert_eq!(pick_review_cards(rows.clone(), 100).len(), 30);
    assert!(pick_review_cards(rows, 0).is_empty());
}

#[test]
fn sentences_keep_every_word_in_order() {
    let cues = vec![
        CueFull { idx: 0, start_ms: 0, end_ms: 3000, text_en: "One two. Three, four! Five".into() },
        CueFull { idx: 1, start_ms: 3000, end_ms: 5000, text_en: "six? seven".into() },
    ];
    let words = build_word_stream(&cues);
    let sents = split_sentences_from_stream(&words);
    let joined_sents: Vec<&str> = sents.iter().map(|s| s.text.as_str()).collect();
    let joined_words: Vec<&str> = words.iter().map(|w| w.text.as_str()).collect();
    assert_eq!(joined_sents.join(" "), joined_words.join(" "));
    assert_eq!(sents.len(), 4);
    assert_eq!(sents[3].text, "seven");
}

#[test]
fn channel_key_never_empty() {
    let pl = RawPlaylist {
        channel: None,
        channel_id: Some(String::new()),
        uploader: None,
        uploader_url: None,
        channel_url: Some("https://y/channel//".into()),
        description: None,
        channel_follower_count: None,
        channel_is_verified: None,
        thumbnails: None,
        title: None,
        entries: None,
    };
    let page = channel_page_from(&pl, "https://y/@x/videos", 1);
    assert_eq!(page.channel.channel_id, "https://y/channel//");
}

#[test]
fn parsed_caption_text_has_no_markup() {
    let vtt = "WEBVTT\n\n00:00:01.000 --> 00:00:02.000\n<c.colorE5E5E5>hello</c> <b>there</b>\n\n00:00:02.000 --> 00:00:03.500\n<00:00:02.100><c> world</c>\n";
    let cues = parse(vtt);
    assert!(!cues.is_empty());
    for c in &cues {
        assert!(!c.text.contains('<'));
        assert!(!c.text.contains('>'));
    }
    assert_eq!(cues[0].text, "hello there");
}

#[test]
fn cleaned_words_hold_no_filler_and_no_immediate_repeat() {
    let cues = vec![CueFull {
        idx: 0,
        start_ms: 0,
        end_ms: 12000,
        text_en: "Um, I I I think, uh, it is is Hmm. very, very good good".into(),
    }];
    let kept = clean_word_stream(&build_word_stream(&cues));
    let fillers = ["um", "umm", "uh", "uhh", "er", "erm", "ah", "eh", "hm", "hmm", "hmmm", "mm", "mmm"];
    for w in &kept {
        let norm = w.text.trim_matches(|c: char| !c.is_alphanumeric()).to_lowercase();
        assert!(!fillers.contains(&norm.as_str()), "{} is a filler", w.text);
    }
    for pair in kept.windows(2) {
        assert!(!pair[0].text.eq_ignore_ascii_case(&pair[1].text));
    }
    let texts: Vec<&str> = kept.iter().map(|w| w.text.as_str()).collect();
    assert_eq!(texts, vec!["I", "think,", "it", "is", "very,", "very", "good"]);
}

#[test]
fn dropping_first_words_keeps_the_later_words() {
    let s = "what happened? Yeah, the scop cance canceled. He";
    let r = strip_first_words(s, 2);
    assert_eq!(r, "Yeah, the scop cance canceled. He");
    assert!(s.ends_with(&r));
    for n in 0..9usize {
        let r = strip_first_words(s, n);
        let all = word_tokens(s);
        let cut = n.min(all.len());
        assert_eq!(word_tokens(&r), all[cut..].to_vec());
        assert!(s.ends_with(&r));
    }
}

#[test]
fn filter_path_quoting_can_be_undone() {
    fn unescape(t: &[char]) -> String {
        let mut out = String::new();
        let mut i = 0;
        while i < t.len() {
            if i + 1 < t.len() && t[i] == '\\' && t[i + 1] == '\\' {
                out.push('\\');
                i += 2;
            } else if i + 3 < t.len() && t[i] == '\'' && t[i + 1] == '\\' && t[i + 2] == '\'' && t[i + 3] == '\'' {
                out.push('\'');
                i += 4;
            } else {
                out.push(t[i]);
                i += 1;
            }
        }
        out
    }
    for p in ["C:\\fonts\\it's", "/tmp/a'b'c", "plain", "\\'", ""] {
        let r: Vec<char> = esc_filter_path(p).chars().collect();
        assert!(r.len() >= 2 && r[0] == '\'' && r[r.len() - 1] == '\'');
        assert_eq!(unescape(&r[1..r.len() - 1]), p);
        let inner: String = r[1..r.len() - 1].iter().collect();
        assert_eq!(inner.replace("'\\''", "'").replace("\\\\", "\\"), p);
    }
    assert_ne!(esc_filter_path("a\\'"), esc_filter_path("a'\\"));
}
