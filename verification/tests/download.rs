use lyrebird::download::{
    download_args, download_failure_detail, extract_audio_args, fetch_info_args, ffmpeg_bin, find_media_file,
    run_outcome, spawn_error, DlMonitor, IngestError, MediaKind,
};
use lyrebird::ingest::YtDlp;

fn strs(v: &[&str]) -> Vec<String> {
    v.iter().map(|s| s.to_string()).collect()
}

#[test]
fn monitor_reports_aggregated_progress() {
    let mut m = DlMonitor::new();
    assert!(m.on_line("[download] Destination: x.en.vtt", 1000).is_none());
    assert!(m.on_line("[download] 100% of    440.00B in 00:00:00", 1000).is_none());
    assert!(m.on_line("[download] Destination: x.f133.mp4", 1000).is_none());
    let p = m.on_line("[download]  50.0% of  100.00MiB at  1.00MiB/s ETA 00:50", 1000).unwrap();
    assert_eq!(p.stage, "下载视频");
    assert_eq!(p.percent_milli, Some(50_000));
    assert_eq!(p.speed.as_deref(), Some("1.00MiB/s"));
    assert_eq!(p.detail.as_deref(), Some("50.0MiB / 100.0MiB"));
    // Under half a percent more and a new speed too soon: nothing.
    assert!(m.on_line("[download]  50.2% of  100.00MiB at  2.00MiB/s ETA 00:50", 100).is_none());
    // The same line later: the new speed is due.
    let p = m.on_line("[download]  50.2% of  100.00MiB at  2.00MiB/s ETA 00:50", 400).unwrap();
    assert_eq!(p.percent_milli, Some(50_199));
    assert_eq!(p.speed.as_deref(), Some("2.00MiB/s"));
}

#[test]
fn monitor_percent_never_goes_back() {
    let mut m = DlMonitor::new();
    m.on_line("[download] Destination: x.f133.mp4", 0);
    let p = m.on_line("[download]  80.0% of  100.00MiB at  1.00MiB/s", 1000).unwrap();
    assert_eq!(p.percent_milli, Some(80_000));
    m.on_line("[download] 100% of  100.00MiB in 00:01:00", 1000);
    m.on_line("[download] Destination: x.f140.m4a", 0);
    // Video and audio together are 100 MiB of 110 MiB, about 90.9%, but the
    // bar keeps the 100% it reached: nothing new to report at the same speed.
    assert!(m.on_line("[download]   0.0% of   10.00MiB at  1.00MiB/s", 1000).is_none());
    let p = m.on_line("[download]  10.0% of   10.00MiB at  2.00MiB/s", 1000).unwrap();
    assert_eq!(p.percent_milli, Some(100_000));
    assert_eq!(p.detail.as_deref(), Some("101.0MiB / 110.0MiB"));
    let mut n = DlMonitor::new();
    n.on_line("[download] Destination: y.mp4", 0);
    n.on_line("[download]  60.0% of ~  10.00MiB at  1.00MiB/s", 1000);
    // A smaller estimate later would lower the share: the highest stays.
    let p = n.on_line("[download]  10.0% of ~  10.00MiB at  3.00MiB/s", 1000).unwrap();
    assert_eq!(p.percent_milli, Some(60_000));
}

#[test]
fn monitor_reports_stages_and_completion() {
    let mut m = DlMonitor::new();
    let p = m.on_line("[Merger] Merging formats into \"x.mp4\"", 0).unwrap();
    assert_eq!((p.stage.as_str(), p.percent_milli), ("合并音视频", None));
    let p = m.on_line("[SubtitlesConvertor] Converting subtitles", 0).unwrap();
    assert_eq!(p.stage, "转换字幕格式");
    assert!(m.on_line("[info] something else", 0).is_none());
    m.on_line("[download] Destination: x.mp4", 0);
    m.on_line("[download]  99.8% of  1.00MiB at  1.00MiB/s", 0);
    let p = m.on_line("[download] 100% of  1.00MiB in 00:00:01 at 1.00MiB/s", 0).unwrap();
    assert_eq!(p.percent_milli, Some(100_000));
}

#[test]
fn argument_lists() {
    let yt = YtDlp { bin: None, cookies_browser: Some("chrome".into()), cookies_file: None };
    let a = download_args("/m/abc.%(ext)s", &yt, "https://y/watch?v=abc");
    assert_eq!(a.len(), 19);
    assert_eq!(a[4], "bv*[vcodec^=avc1][ext=mp4]+ba[ext=m4a]/bv*[vcodec^=avc1]+ba/b[vcodec^=avc1]/b");
    assert_eq!(&a[14..], &strs(&["-o", "/m/abc.%(ext)s", "--cookies-from-browser", "chrome", "https://y/watch?v=abc"])[..]);
    assert_eq!(fetch_info_args(&YtDlp::default(), "u"), strs(&["--dump-json", "--no-playlist", "u"]));
    assert_eq!(
        extract_audio_args("v.mp4", "v.wav"),
        strs(&["-y", "-i", "v.mp4", "-vn", "-ac", "1", "-ar", "16000", "v.wav"])
    );
    assert_eq!(ffmpeg_bin(None), "ffmpeg");
    assert_eq!(ffmpeg_bin(Some("/opt/ff".into())), "/opt/ff");
}

#[test]
fn errors_and_their_messages() {
    assert_eq!(
        spawn_error("yt-dlp", true, "x").message(),
        "找不到外部工具 yt-dlp，请在设置页配置路径"
    );
    assert_eq!(spawn_error("yt-dlp", false, "denied").message(), "denied");
    assert_eq!(run_outcome("ff", true, "out".into(), "err").ok().as_deref(), Some("out"));
    match run_outcome("ff", false, "out".into(), "  bad input \n") {
        Err(e) => assert_eq!(e.message(), "ff 执行失败: bad input"),
        Ok(_) => panic!("expected a failure"),
    }
    assert_eq!(IngestError::Json("eof".into()).message(), "eof");
    assert_eq!(download_failure_detail(&strs(&["progress", "ERROR: a", "ERROR: b  "])), "ERROR: a\nERROR: b");
    assert_eq!(download_failure_detail(&strs(&["fine"])), "未知错误");
}

#[test]
fn finds_downloaded_files() {
    let names = strs(&["abc.en.srt", "abc.webp", "abc.MP4", "zzz.mp4"]);
    assert_eq!(find_media_file(&names, "abc", MediaKind::Video), Some(2));
    assert_eq!(find_media_file(&names, "abc", MediaKind::Subtitle), Some(0));
    assert_eq!(find_media_file(&names, "abc", MediaKind::Thumbnail), Some(1));
    assert_eq!(find_media_file(&names, "x", MediaKind::Video), None);
    assert_eq!(find_media_file(&strs(&["abc.JPEG"]), "abc", MediaKind::Thumbnail), Some(0));
}

#[test]
fn monitor_run_reports_only_rising_percentages() {
    let lines = [
        "[download] Destination: a.f137.mp4",
        "[download]  10.0% of  100.00MiB at  1.00MiB/s",
        "[download]  40.0% of  100.00MiB at  2.00MiB/s",
        "[download] Destination: a.en.srt",
        "[download]  50.0% of    2.00KiB at  3.00MiB/s",
        "[download] 100% of    2.00KiB in 00:00:00",
        "[download] Destination: a.f140.m4a",
        "[download]   5.0% of   10.00MiB at  4.00MiB/s",
        "[download] 100% of   10.00MiB in 00:00:05",
        "[Merger] Merging formats into \"a.mp4\"",
    ];
    let mut m = DlMonitor::new();
    let mut last: Option<u128> = None;
    let mut out = Vec::new();
    for l in lines {
        out.push(m.on_line(l, 1000));
    }
    for r in out.iter().flatten() {
        if r.stage == "下载视频" {
            if let Some(l) = last {
                assert!(r.percent_milli.unwrap() >= l);
            }
            last = r.percent_milli.or(last);
        }
    }
    assert!(out[4].is_none() && out[5].is_none());
    assert_eq!(out[9].as_ref().unwrap().stage, "合并音视频");
}
