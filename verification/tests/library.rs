use lyrebird::asr::{asr_env_message, asr_failure_message, asr_json_line, asr_model, asr_python, audio_plan, worker_segments, AudioPlan, Segment, WorkerOut};
use lyrebird::import::{
    caption_source, category_name, category_update, download_error_message, import_progress, import_url,
    is_video_file, video_category, wav_name, CaptionSource,
};
use lyrebird::mdx::{mdx_open_error, mdx_progress, MdxRecord, MdxTally};

#[test]
fn import_link_and_category() {
    assert_eq!(import_url("  https://y/abc \n").unwrap(), "https://y/abc");
    assert_eq!(import_url("   ").unwrap_err(), "链接不能为空");
    assert_eq!(video_category(Some("Chan".into()), Some("Up".into())), "Chan");
    assert_eq!(video_category(None, Some("Up".into())), "Up");
    assert_eq!(video_category(None, None), "未分类");
    assert_eq!(category_name("  Tech ").unwrap(), "Tech");
    assert_eq!(category_name(" ").unwrap_err(), "分类名不能为空");
    assert_eq!(category_update(Some(String::new())), None);
    assert_eq!(category_update(Some(" x".into())).as_deref(), Some(" x"));
}

#[test]
fn import_steps_and_errors() {
    let p = import_progress(1, "下载视频", Some(5));
    assert_eq!((p.step, p.total_steps, p.label.as_str(), p.percent_milli), (1, 4, "下载视频", Some(5)));
    assert_eq!(
        download_error_message("ERROR: Sign in to confirm you're not a bot"),
        "YouTube 要求人机校验。请在设置页配置「Cookies 来源」（推荐：从浏览器读取）后重试。"
    );
    assert_eq!(download_error_message("use --cookies"), download_error_message("Sign in to confirm"));
    assert_eq!(download_error_message("HTTP 404"), "HTTP 404");
    let s = caption_source(true);
    assert_eq!((s, s.name().as_str(), s.step_label().as_str()), (CaptionSource::YouTube, "youtube", "解析字幕"));
    let s = caption_source(false);
    assert_eq!((s.name().as_str(), s.step_label().as_str()), ("asr", "提取音轨（待 ASR 转写）"));
    assert_eq!(wav_name("abc"), "abc.wav");
    assert!(is_video_file("abc.en.srt", "abc"));
    assert!(!is_video_file("ab.mp4", "abc"));
}

#[test]
fn asr_settings_and_audio() {
    assert_eq!(asr_python(None), "python3");
    assert_eq!(asr_model(None).unwrap_err(), "请先在设置页配置 ASR 模型权重目录");
    assert_eq!(asr_model(Some("/m".into())).unwrap(), "/m");
    match audio_plan(Some("/a.wav".into()), true, Some("/v.mp4".into()), None).unwrap() {
        AudioPlan::Stored(p) => assert_eq!(p, "/a.wav"),
        _ => panic!("expected the stored track"),
    }
    match audio_plan(Some("/a.wav".into()), false, Some("/v.mp4".into()), None).unwrap() {
        AudioPlan::Extract { video, wav_name } => assert_eq!((video.as_str(), wav_name.as_str()), ("/v.mp4", "audio.wav")),
        _ => panic!("expected extraction"),
    }
    match audio_plan(None, false, Some("/v.mp4".into()), Some("id9".into())).unwrap() {
        AudioPlan::Extract { wav_name, .. } => assert_eq!(wav_name, "id9.wav"),
        _ => panic!("expected extraction"),
    }
    assert_eq!(audio_plan(None, false, None, None).unwrap_err(), "视频文件缺失");
}

#[test]
fn asr_output_and_failures() {
    assert_eq!(asr_json_line("loading\n  {\"a\":1}\nlog\n{\"b\":2}\ndone").unwrap(), "{\"b\":2}");
    assert_eq!(asr_json_line("no json here").unwrap_err(), "ASR 输出为空");
    assert_eq!(asr_failure_message("1\n2\n3\n4\n5\n6"), "ASR 进程失败:\n6\n5\n4\n3\n2");
    let seg = Segment { start_ms: 0, end_ms: 1000, speaker: None, text: "hi".into() };
    assert_eq!(worker_segments(WorkerOut { segments: Some(vec![seg]), error: None }).unwrap().len(), 1);
    assert_eq!(worker_segments(WorkerOut { segments: Some(vec![]), error: None }).unwrap_err(), "未转写出任何内容");
    assert_eq!(worker_segments(WorkerOut { segments: None, error: Some("oom".into()) }).unwrap_err(), "oom");
    assert_eq!(asr_env_message("/py", true, "").unwrap(), "ASR 环境正常（/py）");
    assert_eq!(
        asr_env_message("/py", false, "x\nNo module named torch").unwrap_err(),
        "ASR 环境未就绪: No module named torch\n请运行 scripts/setup_asr.sh 安装，并在设置页配置 Python 解释器路径"
    );
}

#[test]
fn mdx_import_batches() {
    let mut t = MdxTally::new();
    let mut due = 0;
    for i in 0..10_001 {
        if t.record(format!("k{i}"), MdxRecord::Content("<p/>".into())) {
            due += 1;
        }
    }
    assert_eq!((t.count, due), (10_001, 2));
    assert!(!t.record("went".into(), MdxRecord::Redirect("go".into())));
    assert_eq!(t.redirects, vec![("went".to_string(), "go".to_string())]);
    assert_eq!(mdx_progress(false, 5000).stage, "导入词条…");
    assert_eq!(mdx_progress(true, 7).stage, "完成");
    assert_eq!(mdx_open_error("bad header"), "无法打开 MDX 文件: bad header");
}
