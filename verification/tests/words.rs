use lyrebird::words::{context_sentence, contains_word, split_sentences};

#[test]
fn finds_sentence_containing_word() {
    let text = "The scop cance canceled on us. Is that what happened? Yeah, the scop cance canceled.";
    let sentences = split_sentences(text);
    assert_eq!(sentences.len(), 3);
    assert_eq!(
        sentences
            .iter()
            .find(|s| contains_word(s, "happened"))
            .unwrap(),
        "Is that what happened?"
    );
    assert!(contains_word("Yeah, the scop cance canceled.", "canceled"));
    assert!(!contains_word("Yeah, the scop cance canceled.", "cancel"));
}

#[test]
fn context_prefers_whole_word_then_substring() {
    let rows = vec!["I cancel it.".to_string(), "It was Canceled today.".to_string()];
    assert_eq!(context_sentence(&rows, "CANCELED").as_deref(), Some("It was Canceled today."));
    assert_eq!(context_sentence(&rows, "cancel").as_deref(), Some("I cancel it."));
    assert_eq!(context_sentence(&rows, "celed").as_deref(), Some("It was Canceled today."));
    assert_eq!(context_sentence(&rows, "zebra"), None);
}

#[test]
fn trailing_fragment_kept_as_sentence() {
    let s = split_sentences("One. two  ");
    assert_eq!(s, vec!["One.".to_string(), "two".to_string()]);
}

use lyrebird::dict::lookup_candidates;
use lyrebird::words::{clean_lookup_word, dict_path_from, lookup_missing_error, review_outcome, speakable_word, ReviewStats};

#[test]
fn lookup_words_cleaned_and_lowered() {
    assert_eq!(clean_lookup_word("  “Naïve,” "), "Naïve");
    assert_eq!(clean_lookup_word("(don't)"), "don't");
    assert_eq!(lookup_candidates("Éclair"), vec!["Éclair".to_string(), "éclair".to_string()]);
    assert_eq!(lookup_candidates("word"), vec!["word".to_string()]);
    assert!(contains_word("Voilà, café crème.", "café"));
    assert_eq!(
        lookup_missing_error(false, false, false).as_deref(),
        Some("未找到词条。可在设置页配置 ECDICT 或导入 MDX 词典")
    );
    assert_eq!(lookup_missing_error(true, false, false), None);
    assert_eq!(dict_path_from(Some("  ".into())).unwrap_err(), "请先在设置页配置 ECDICT 词典文件路径");
    assert_eq!(dict_path_from(Some("/d.db".into())).unwrap(), "/d.db");
}

#[test]
fn review_answers_and_stats() {
    assert!(review_outcome("correct").is_ok());
    assert_eq!(review_outcome("maybe").unwrap_err(), "未知的作答结果");
    let s = ReviewStats::from_counts(10, 4);
    assert_eq!((s.total, s.mastered, s.due), (10, 4, 6));
    assert_eq!(speakable_word("  hello ").as_deref(), Some("hello"));
    assert_eq!(speakable_word("   "), None);
    assert_eq!(speakable_word(&"é".repeat(51)), None);
    assert_eq!(speakable_word(&"é".repeat(50)).map(|s| s.len()), Some(100));
}

#[test]
fn analysis_prompt_and_review_pool() {
    assert_eq!(lyrebird::words::analyze_prompt("gist", "Get the gist."), "单词：gist\n原句：Get the gist.");
    assert_eq!(lyrebird::words::review_pool_size(7), 21);
    assert_eq!(lyrebird::words::review_pool_size(-1), -3);
}
