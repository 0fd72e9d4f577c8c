use lyrebird::export::{esc_filter_path, has_ass_filter, storyboard_count, storyboard_interval};

#[test]
fn escapes_filter_path() {
    assert_eq!(esc_filter_path("/tmp/a b/clip.ass"), "'/tmp/a b/clip.ass'");
    assert_eq!(
        esc_filter_path("/weird/o'hare/x.ass"),
        "'/weird/o'\\''hare/x.ass'"
    );
    assert_eq!(
        esc_filter_path("/Library/Application Support/x"),
        "'/Library/Application Support/x'"
    );
}

#[test]
fn escapes_backslashes_doubled() {
    assert_eq!(esc_filter_path("C:\\a\\b"), "'C:\\\\a\\\\b'");
    assert_eq!(esc_filter_path(""), "''");
}

#[test]
fn finds_libass_filters() {
    let out = "Filters:\n T.. = Timeline support\n ... ass               V->V       Render ASS subtitles.\n";
    assert!(has_ass_filter(out));
    let out = " ... subtitles         V->V       Render text subtitles.";
    assert!(has_ass_filter(out));
    let out = " ... scale             V->V       Scale the input video size.\n ass";
    assert!(!has_ass_filter(out));
}

#[test]
fn storyboard_interval_is_clamped() {
    assert_eq!(storyboard_interval(60_000), 8000);
    assert_eq!(storyboard_interval(95 * 60_000), 15_833);
    assert_eq!(storyboard_interval(5 * 3_600_000), 30_000);
    assert_eq!(storyboard_count(60_000, 8000), 8);
    assert_eq!(storyboard_count(64_000, 8000), 8);
    assert_eq!(storyboard_count(0, 8000), 0);
}

use lyrebird::export::{
    burn_mode, export_args, export_failure_message, overlay_png_name, overlay_script,
    storyboard_args, storyboard_cached, storyboard_frames, BurnMode, ExportMonitor, SubtitleBurn,
};

fn strs(v: &[&str]) -> Vec<String> {
    v.iter().map(|s| s.to_string()).collect()
}

const CODEC: [&str; 12] = [
    "-c:v", "libx264", "-preset", "veryfast", "-crf", "20", "-pix_fmt", "yuv420p", "-c:a", "aac", "-b:a", "160k",
];
const TAIL: [&str; 7] = ["-movflags", "+faststart", "-progress", "pipe:1", "-nostats", "-nostdin", "-y"];

#[test]
fn export_args_with_cut_and_ass() {
    let burn = SubtitleBurn::Ass { ass_path: "/d/export_1.ass".into(), fonts_dir: "/a b/fonts".into() };
    let a = export_args(Some(1500), Some(62_005), "/v/x.mp4", &burn, "/o/out.mp4");
    let mut want = strs(&["-ss", "1.500", "-to", "62.005", "-i", "/v/x.mp4", "-vf"]);
    want.push("ass='/d/export_1.ass':fontsdir='/a b/fonts'".into());
    want.extend(strs(&CODEC));
    want.extend(strs(&TAIL));
    want.push("/o/out.mp4".into());
    assert_eq!(a, want);
}

#[test]
fn export_args_soft_subtitles_and_no_cut() {
    let burn = SubtitleBurn::Soft { srt_path: "/d/e.srt".into() };
    let a = export_args(Some(5000), Some(5000), "v", &burn, "o");
    let mut want = strs(&["-i", "v", "-i", "/d/e.srt", "-map", "0:v", "-map", "0:a", "-map", "1:s"]);
    want.extend(strs(&CODEC));
    want.extend(strs(&["-c:s", "mov_text"]));
    want.extend(strs(&TAIL));
    want.push("o".into());
    assert_eq!(a, want);
}

#[test]
fn export_args_with_overlays() {
    let burn = SubtitleBurn::Overlays { png_paths: strs(&["p0", "p1"]), script_path: "s.ffgraph".into() };
    let a = export_args(None, Some(9), "v", &burn, "o");
    assert_eq!(
        &a[..18],
        &strs(&[
            "-i", "v", "-loop", "1", "-framerate", "30", "-i", "p0", "-loop", "1", "-framerate", "30", "-i", "p1",
            "-filter_complex_script", "s.ffgraph", "-map", "[vout]",
        ])[..]
    );
    assert_eq!(burn_mode(true, 3, true), BurnMode::Ass);
    assert_eq!(burn_mode(false, 3, true), BurnMode::Overlays);
    assert_eq!(burn_mode(false, 0, true), BurnMode::Soft);
    assert_eq!(burn_mode(false, 0, false), BurnMode::Plain);
    let plain = export_args(None, None, "v", &SubtitleBurn::Plain, "o");
    assert_eq!(plain.len(), 2 + 12 + 7 + 1);
}

#[test]
fn overlay_script_and_names() {
    let s = overlay_script(&vec![(0, 1500), (2000, 3250)]);
    assert_eq!(
        s,
        "[0:v]format=rgba[v0];\n\
         [v0][1:v]overlay=0:0:eof_action=pass:enable='between(t,0.000,1.500)'[v1];\n\
         [v1][2:v]overlay=0:0:eof_action=pass:enable='between(t,2.000,3.250)'[v2];\n\
         [v2]format=yuv420p[vout]\n"
    );
    assert_eq!(overlay_png_name(7), "cue_007.png");
    assert_eq!(overlay_png_name(42), "cue_042.png");
    assert_eq!(overlay_png_name(1234), "cue_1234.png");
}

#[test]
fn export_progress_only_goes_up() {
    let mut m = ExportMonitor::new();
    // A 10 s clip: 1 s done is 10%.
    assert_eq!(m.on_line("out_time_ms=1000000", 10_000), Some(100));
    assert_eq!(m.on_line("out_time_ms=1010000", 10_000), None);
    assert_eq!(m.on_line("out_time_ms=1500000", 10_000), Some(150));
    assert_eq!(m.on_line("frame=20", 10_000), None);
    assert_eq!(m.on_line("out_time_ms=N/A", 10_000), None);
    // Past the end it stops at 99%.
    assert_eq!(m.on_line("out_time_ms=99000000", 10_000), Some(990));
    let mut n = ExportMonitor::new();
    assert_eq!(n.on_line("out_time_ms=-5", 10_000), Some(0));
}

#[test]
fn export_failure_keeps_last_four_lines() {
    assert_eq!(export_failure_message("a\nb\nc\nd\ne\n"), "b\nc\nd\ne");
    assert_eq!(export_failure_message("only"), "only");
    assert_eq!(export_failure_message("  \n \n"), "ffmpeg 导出失败");
}

#[test]
fn storyboard_cache_args_and_listing() {
    assert!(storyboard_cached(8, 8));
    assert!(!storyboard_cached(7, 8));
    assert!(!storyboard_cached(0, 0));
    assert_eq!(
        storyboard_args("v.mp4", 15_833, 360, "/d/sb_%04d.jpg"),
        strs(&[
            "-loglevel", "error", "-skip_frame", "nokey", "-i", "v.mp4", "-vf", "fps=1/15.833,scale=160:90",
            "-frames:v", "360", "-q:v", "4", "-y", "/d/sb_%04d.jpg",
        ])
    );
    let names = strs(&["sb_0010.jpg", "x.jpg", "sb_0002.jpg", "sb_0001.png", "sb_0001.jpg"]);
    assert_eq!(storyboard_frames(&names), strs(&["sb_0001.jpg", "sb_0002.jpg", "sb_0010.jpg"]));
}
