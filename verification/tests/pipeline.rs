use lyrebird::json::{json_object_text, reply_array};
use lyrebird::structure::{
    chunk_breaks, chunk_prompts, final_breaks, merge_breaks, paragraph_layout, structure_sentences,
};
use lyrebird::translate::{CueFull, StreamSentence};
use lyrebird::translation::{
    block_prompt, block_translations, numbered_prompt, tldr_input, translation_blocks, CueRow, TranslateTally,
};

fn row(id: i64, text: &str) -> CueRow {
    CueRow { id, text_en: text.to_string() }
}

fn cue(idx: i64, start_ms: u64, end_ms: u64, text: &str) -> CueFull {
    CueFull { idx, start_ms, end_ms, text_en: text.to_string() }
}

fn sentence(text: &str, start_ms: u64, end_ms: u64) -> StreamSentence {
    StreamSentence { text: text.to_string(), start_ms, end_ms, cue_from: 0, cue_to: 0 }
}

#[test]
fn blocks_stay_under_1200_bytes() {
    let long = "x".repeat(700);
    let cues = vec![row(1, &long), row(2, &long), row(3, "short"), row(4, &"y".repeat(1500)), row(5, "z")];
    assert_eq!(translation_blocks(&cues), vec![(0, 1), (1, 3), (3, 4), (4, 5)]);
    assert!(translation_blocks(&Vec::new()).is_empty());
    let small = vec![row(1, "a"), row(2, "b")];
    assert_eq!(translation_blocks(&small), vec![(0, 2)]);
}

#[test]
fn blocks_count_utf8_bytes() {
    // 400 Chinese characters are 1200 bytes: a block holds exactly one.
    let zh = "字".repeat(400);
    let cues = vec![row(1, &zh), row(2, "a")];
    assert_eq!(translation_blocks(&cues), vec![(0, 1), (1, 2)]);
}

#[test]
fn block_prompt_numbers_from_one() {
    let cues = vec![row(7, "Hello"), row(8, "World"), row(9, "Again")];
    assert_eq!(block_prompt(&cues, 1, 3), "1. World\n2. Again");
    assert_eq!(block_prompt(&cues, 0, 0), "");
    let texts = vec!["a".chars().collect::<Vec<char>>(), "b".chars().collect()];
    assert_eq!(numbered_prompt(&texts, 9).into_iter().collect::<String>(), "9. a\n10. b");
}

#[test]
fn json_object_cut_out_of_reply() {
    assert_eq!(json_object_text("```json\n{\"a\": 1}\n```"), "{\"a\": 1}");
    assert_eq!(json_object_text("no braces"), "no braces");
    assert_eq!(json_object_text("{ open only"), "{ open only");
    assert_eq!(json_object_text("}{"), "");
}

#[test]
fn reply_array_reads_strings_and_numbers() {
    let r = reply_array("x {\"p\": [3, \"s\", -1, 7]} y", "p").unwrap().unwrap();
    assert_eq!(r.len(), 4);
    assert_eq!(r[0].number, Some(3));
    assert_eq!(r[1].text.as_deref(), Some("s"));
    assert_eq!(r[2].number, None);
    assert!(reply_array("{\"q\": []}", "p").unwrap().is_none());
    assert!(reply_array("{not json}", "p").is_err());
}

#[test]
fn translations_paired_and_trimmed() {
    let cues = vec![row(10, "Hi"), row(11, "Bye"), row(12, "Again")];
    let out = "好的：\n```json\n{\"translations\": [\" 你好 \", 5]}\n```";
    let pairs = block_translations(&cues, 0, 2, out).unwrap();
    assert_eq!(pairs, vec![(10, "你好".to_string()), (11, String::new())]);
}

#[test]
fn translation_errors() {
    let cues = vec![row(10, "Hi"), row(11, "Bye")];
    assert_eq!(
        block_translations(&cues, 0, 2, "{\"translations\": [\"一\"]}").unwrap_err(),
        "译文数量(1)与原文(2)不一致"
    );
    assert_eq!(
        block_translations(&cues, 0, 2, "{\"other\": []}").unwrap_err(),
        "LLM 输出缺少 translations 数组"
    );
    assert!(block_translations(&cues, 0, 2, "{oops}")
        .unwrap_err()
        .starts_with("LLM 输出解析失败: "));
}

#[test]
fn tally_counts_and_reports_failures() {
    let mut t = TranslateTally::new();
    let p = t.record(5, 3, Ok(vec![(1, "一".to_string()), (2, "二".to_string())]));
    assert_eq!((p.video_id, p.done, p.total, p.pairs.len()), (5, 1, 3, 2));
    let p = t.record(5, 3, Err("坏了".to_string()));
    assert_eq!((p.done, p.pairs.len()), (2, 0));
    assert_eq!(
        t.outcome(3).unwrap_err(),
        "1/3 个分块翻译失败（已译 2 句已保存，重新点击翻译可续传）：坏了"
    );
    let mut ok = TranslateTally::new();
    ok.record(5, 1, Ok(vec![(1, "一".to_string())]));
    assert_eq!(ok.outcome(1), Ok(1));
}

#[test]
fn tldr_input_joined_and_cut() {
    assert_eq!(tldr_input(&vec![]).unwrap_err(), "还没有字幕，无法生成 TLDR");
    assert_eq!(tldr_input(&vec!["a".into(), "b".into()]).unwrap(), "a b");
    let long = tldr_input(&vec!["x".repeat(12001)]).unwrap();
    assert_eq!(long.chars().count(), 12000 + " …(后文略)".chars().count());
    assert!(long.ends_with(" …(后文略)"));
    assert_eq!(tldr_input(&vec!["x".repeat(12000)]).unwrap().len(), 12000);
}

#[test]
fn structure_sentences_cleans_and_splits() {
    let cues = vec![cue(0, 0, 4000, "Well, um, this is it. Yeah"), cue(1, 4000, 6000, "so, I mean.")];
    let sents = structure_sentences(&cues).unwrap();
    let texts: Vec<&str> = sents.iter().map(|s| s.text.as_str()).collect();
    assert_eq!(texts, vec!["This is it.", "Yeah so."]);
    assert_eq!(structure_sentences(&vec![]).unwrap_err(), "还没有字幕，无法分段");
    assert_eq!(structure_sentences(&vec![cue(0, 0, 1000, "um uh")]).unwrap_err(), "未能切分出句子");
}

#[test]
fn chunk_prompts_number_by_video_index() {
    let sents: Vec<StreamSentence> = (0..151).map(|i| sentence(&format!("s{i}"), 0, 0)).collect();
    let prompts = chunk_prompts(&sents);
    assert_eq!(prompts.len(), 2);
    assert!(prompts[0].starts_with("0. s0\n1. s1\n"));
    assert!(prompts[0].ends_with("149. s149"));
    assert_eq!(prompts[1], "150. s150");
    assert!(chunk_prompts(&vec![]).is_empty());
}

#[test]
fn breaks_read_merged_and_laid_out() {
    assert_eq!(chunk_breaks("```{\"p\": [4, 1, \"x\", 4]}```"), vec![4, 1, 4]);
    assert!(chunk_breaks("not json").is_empty());
    let merged = merge_breaks(&vec![vec![4, 1], vec![], vec![4, 9, 0]]);
    assert_eq!(merged, vec![0, 1, 4, 9]);
    let rows = paragraph_layout(5, &vec![1, 3]);
    assert_eq!(rows, vec![(0, 0), (0, 1), (1, 0), (1, 1), (2, 0)]);
    assert!(paragraph_layout(0, &vec![]).is_empty());
}

#[test]
fn breaks_fall_back_to_long_pauses() {
    let sents = vec![sentence("a", 0, 1000), sentence("b", 3500, 4000), sentence("c", 5000, 6000)];
    assert_eq!(final_breaks(vec![], &sents), vec![0]);
    assert_eq!(final_breaks(vec![2], &sents), vec![2]);
}

#[test]
fn replies_with_reversed_braces_cannot_be_cut() {
    assert!(lyrebird::json::can_cut_json("a { b } c"));
    assert!(lyrebird::json::can_cut_json("}{"));
    assert!(lyrebird::json::can_cut_json("none"));
    assert!(!lyrebird::json::can_cut_json("} x {"));
}
