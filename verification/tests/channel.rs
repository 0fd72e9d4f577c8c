use lyrebird::channel::{channel_page_from, channel_videos_url, RawEntry, RawPlaylist, RawThumb};
use serde_json::Value;

fn opt_str(v: &Value, key: &str) -> Option<String> {
    v.get(key).and_then(|x| x.as_str()).map(|s| s.to_string())
}

fn thumbs(v: &Value) -> Option<Vec<RawThumb>> {
    v.get("thumbnails").and_then(|x| x.as_array()).map(|a| {
        a.iter()
            .map(|t| RawThumb {
                url: t.get("url").and_then(|u| u.as_str()).unwrap_or("").to_string(),
                width: t.get("width").and_then(|w| w.as_i64()),
            })
            .collect()
    })
}

/// The first line of yt-dlp's output read into the listing the library takes.
fn playlist(raw: &str) -> RawPlaylist {
    let line = raw.lines().next().unwrap_or("");
    let v: Value = serde_json::from_str(line).unwrap();
    RawPlaylist {
        channel: opt_str(&v, "channel"),
        channel_id: opt_str(&v, "channel_id"),
        uploader: opt_str(&v, "uploader"),
        uploader_url: opt_str(&v, "uploader_url"),
        channel_url: opt_str(&v, "channel_url"),
        description: opt_str(&v, "description"),
        channel_follower_count: v.get("channel_follower_count").and_then(|x| x.as_i64()),
        channel_is_verified: v.get("channel_is_verified").and_then(|x| x.as_bool()),
        thumbnails: thumbs(&v),
        title: opt_str(&v, "title"),
        entries: v.get("entries").and_then(|x| x.as_array()).map(|a| {
            a.iter()
                .map(|e| RawEntry {
                    id: opt_str(e, "id"),
                    url: opt_str(e, "url"),
                    title: opt_str(e, "title"),
                    duration_ms: e
                        .get("duration")
                        .and_then(|d| d.as_f64())
                        .map(|d| (d * 1000.0).round() as u64),
                    view_count: e.get("view_count").and_then(|x| x.as_i64()),
                    thumbnails: thumbs(e),
                    live_status: opt_str(e, "live_status"),
                })
                .collect()
        }),
    }
}

#[test]
fn normalizes_channel_url() {
    assert_eq!(
        channel_videos_url("https://www.youtube.com/@allin"),
        "https://www.youtube.com/@allin/videos"
    );
    assert_eq!(
        channel_videos_url("https://www.youtube.com/@allin/"),
        "https://www.youtube.com/@allin/videos"
    );
    assert_eq!(
        channel_videos_url("https://www.youtube.com/@allin/shorts"),
        "https://www.youtube.com/@allin/shorts"
    );
    assert_eq!(
        channel_videos_url("https://www.youtube.com/channel/UCESLZhusAkFfsNsApnjF_Cg"),
        "https://www.youtube.com/channel/UCESLZhusAkFfsNsApnjF_Cg/videos"
    );
}

const SAMPLE: &str = r#"{"channel": "All-In Podcast", "channel_id": "UCESLZhusAkFfsNsApnjF_Cg", "uploader": "All-In Podcast", "channel_url": "https://www.youtube.com/@allin", "description": "Poker. Business. Politics.", "channel_follower_count": 1130000, "channel_is_verified": true, "thumbnails": [{"url": "https://yt3.googleusercontent.com/small", "width": 88, "height": 88}, {"url": "https://yt3.googleusercontent.com/big", "width": 900, "height": 900}], "title": "All-In Podcast - Videos", "entries": [{"id": "PUcooQRy0PU", "url": "https://www.youtube.com/watch?v=PUcooQRy0PU", "title": "JD Vance on AI, Entitlement Fraud, Iran War", "duration": 1652, "view_count": 110000, "thumbnails": [{"url": "https://i.ytimg.com/vi/PUcooQRy0PU/hqdefault.jpg", "height": 94, "width": 168}, {"url": "https://i.ytimg.com/vi/PUcooQRy0PU/hq720.jpg", "height": 202, "width": 360}], "live_status": null}]}"#;

#[test]
fn parses_channel_page() {
    let page = channel_page_from(&playlist(SAMPLE), "https://www.youtube.com/@allin/videos", 1);
    assert_eq!(page.channel.channel_id, "UCESLZhusAkFfsNsApnjF_Cg");
    assert_eq!(page.channel.title, "All-In Podcast");
    assert_eq!(page.channel.follower_count, Some(1130000));
    assert!(page.channel.verified);
    assert_eq!(
        page.channel.avatar.as_deref(),
        Some("https://yt3.googleusercontent.com/big")
    );
    assert_eq!(page.videos.len(), 1);
    assert!(!page.has_more);
    let v = &page.videos[0];
    assert_eq!(v.id, "PUcooQRy0PU");
    assert_eq!(v.duration_ms.map(|d| d as f64 / 1000.0), Some(1652.0));
    assert_eq!(
        v.thumbnail.as_deref(),
        Some("https://i.ytimg.com/vi/PUcooQRy0PU/hq720.jpg")
    );
    assert_eq!(v.live_status, None);
}

#[test]
fn falls_back_channel_id_when_missing() {
    let raw = r#"{"channel": "Foo", "channel_url": "https://www.youtube.com/channel/UCabcdef123456", "entries": []}"#;
    let page = channel_page_from(&playlist(raw), "https://www.youtube.com/@foo/videos", 1);
    assert_eq!(page.channel.channel_id, "UCabcdef123456");
    let raw = r#"{"channel": "Bar", "entries": []}"#;
    let page = channel_page_from(&playlist(raw), "https://www.youtube.com/@bar/videos", 1);
    assert_eq!(page.channel.channel_id, "https://www.youtube.com/@bar/videos");
    let raw = r#"{"channel": "Baz", "channel_id": "", "channel_url": "https://www.youtube.com/channel/UCzzz", "entries": []}"#;
    let page = channel_page_from(&playlist(raw), "https://www.youtube.com/@baz/videos", 1);
    assert_eq!(page.channel.channel_id, "UCzzz");
}

#[test]
fn title_falls_back_to_playlist_title_then_placeholder() {
    let raw = r#"{"title": " Some Show - Videos - Videos", "entries": [{"title": "no id"}]}"#;
    let page = channel_page_from(&playlist(raw), "https://www.youtube.com/@s/videos", 2);
    assert_eq!(page.channel.title, "Some Show");
    assert!(page.videos.is_empty());
    assert_eq!(page.page, 2);
    let page = channel_page_from(&playlist("{}"), "https://www.youtube.com/@s/videos", 1);
    assert_eq!(page.channel.title, "未知频道");
    assert!(!page.channel.verified);
    assert_eq!(page.channel.url, "https://www.youtube.com/@s/videos");
}

#[test]
fn videos_default_url_and_hide_not_live() {
    let raw = r#"{"entries": [{"id": "a1", "live_status": "not_live", "thumbnails": [{"url": "s", "width": 100}, {"url": "t"}]}, {"id": "b2", "live_status": "is_live"}]}"#;
    let page = channel_page_from(&playlist(raw), "u", 1);
    assert_eq!(page.videos.len(), 2);
    assert_eq!(page.videos[0].url, "https://www.youtube.com/watch?v=a1");
    assert_eq!(page.videos[0].live_status, None);
    assert_eq!(page.videos[0].thumbnail.as_deref(), Some("s"));
    assert_eq!(page.videos[1].live_status.as_deref(), Some("is_live"));
    assert_eq!(page.videos[1].title, "");
}

#[test]
fn full_page_reports_more() {
    let mut entries = Vec::new();
    for i in 0..10 {
        entries.push(format!("{{\"id\": \"v{i}\"}}"));
    }
    let raw = format!("{{\"entries\": [{}]}}", entries.join(","));
    let page = channel_page_from(&playlist(&raw), "u", 1);
    assert_eq!(page.videos.len(), 10);
    assert!(page.has_more);
}

#[test]
fn channel_url_trimmed_and_tabs_kept() {
    assert_eq!(channel_videos_url("  https://x/@a/streams//  "), "https://x/@a/streams");
    assert_eq!(channel_videos_url("https://x/@a/featured"), "https://x/@a/featured");
}

use lyrebird::channel::{channel_fetch_args, channel_fetch_error, page_number};
use lyrebird::download::IngestError;
use lyrebird::ingest::YtDlp;

#[test]
fn page_arguments() {
    assert_eq!(page_number(None), 1);
    assert_eq!(page_number(Some(-3)), 1);
    assert_eq!(page_number(Some(3)), 3);
    let yt = YtDlp { bin: None, cookies_browser: None, cookies_file: Some("c.txt".into()) };
    let a = channel_fetch_args(3, "https://x/@a/videos", &yt);
    let want: Vec<String> = [
        "--flat-playlist", "--dump-single-json", "--no-warnings", "--playlist-items", "21-30", "--cookies", "c.txt",
        "https://x/@a/videos",
    ]
    .iter()
    .map(|s| s.to_string())
    .collect();
    assert_eq!(a, want);
}

#[test]
fn page_fetch_errors() {
    assert_eq!(
        channel_fetch_error(&IngestError::ToolNotFound("yt-dlp".into())),
        "找不到外部工具 yt-dlp，请在设置页配置路径"
    );
    assert_eq!(
        channel_fetch_error(&IngestError::Failed("yt-dlp".into(), "403".into())),
        "拉取频道失败: yt-dlp 执行失败: 403"
    );
}
