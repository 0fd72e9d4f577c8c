use lyrebird::decimal::Decimal;
use lyrebird::ingest::{fmt_size, parse_percent, parse_size, parse_sizes, parse_speed, DlTracker, YtDlp};

fn num(d: Decimal) -> f64 {
    d.mantissa as f64 / 10f64.powi(d.scale as i32)
}

#[test]
fn parses_download_progress_lines() {
    let l = "[download]  45.3% of  360.50MiB at  1.07MiB/s ETA 05:32";
    assert_eq!(parse_percent(l).map(num), Some(45.3));
    assert_eq!(parse_speed(l).as_deref(), Some("1.07MiB/s"));
    let l = "[download]  10.00MiB at  512.00KiB/s";
    assert_eq!(parse_speed(l).as_deref(), Some("512.00KiB/s"));
    let l = "[download]  23.4% of ~  98.00MiB at    2.66MiB/s ETA 01:05 (frag 24/106)";
    assert_eq!(parse_percent(l).map(num), Some(23.4));
    assert_eq!(parse_speed(l).as_deref(), Some("2.66MiB/s"));
    let l = "[download] 100% of  360.50MiB in 00:02:15 at 2.66MiB/s";
    assert_eq!(parse_percent(l).map(num), Some(100.0));
    assert_eq!(parse_speed(l).as_deref(), Some("2.66MiB/s"));
    assert_eq!(parse_speed("[Merger] Merging formats into x.mp4"), None);
}

#[test]
fn parses_sizes_from_progress_lines() {
    let (dl, total) =
        parse_sizes("[download]  45.3% of  360.50MiB at  1.07MiB/s ETA 05:32").unwrap();
    assert_eq!(total.map(|t| t as f64), Some(360.50 * 1024.0 * 1024.0));
    assert!((dl as f64 - 0.453 * 360.50 * 1024.0 * 1024.0).abs() < 1.0);
    let (_, total) =
        parse_sizes("[download]  23.4% of ~  98.00MiB at 2.66MiB/s ETA 01:05 (frag 24/106)")
            .unwrap();
    assert_eq!(total.map(|t| t as f64), Some(98.0 * 1024.0 * 1024.0));
    let (dl, total) =
        parse_sizes("[download] 100% of  360.50MiB in 00:02:15 at 2.66MiB/s").unwrap();
    assert_eq!(dl, total.unwrap());
    let (dl, total) = parse_sizes("[download]  10.00MiB at  512.00KiB/s").unwrap();
    assert_eq!(dl as f64, 10.0 * 1024.0 * 1024.0);
    assert_eq!(total, None);
    assert_eq!(parse_sizes("[download] Resuming download at byte 13672625"), None);
    assert_eq!(
        parse_sizes("[download] x.f133.mp4 has already been downloaded"),
        None
    );
}

#[test]
fn tracks_multi_pass_bytes() {
    let mut t = DlTracker::default();
    t.new_pass("x.en.vtt");
    let (dl, total) = parse_sizes("[download] 100% of    440.00B in 00:00:00").unwrap();
    t.update(dl, total);
    assert_eq!(t.combined(), None);
    t.new_pass("x.f133.mp4");
    let (dl, total) = parse_sizes("[download]  50.0% of  100.00MiB at 1MiB/s").unwrap();
    t.update(dl, total);
    let (dl, total) = t.combined().unwrap();
    assert_eq!(dl as f64, 50.0 * 1024.0 * 1024.0);
    assert_eq!(total.map(|t| t as f64), Some(100.0 * 1024.0 * 1024.0));
    let (dl, total) = parse_sizes("[download] 100% of  100.00MiB in 00:01:00").unwrap();
    t.update(dl, total);
    t.new_pass("x.f140.m4a");
    let (dl, total) = parse_sizes("[download]  50.0% of   10.00MiB at 1MiB/s").unwrap();
    t.update(dl, total);
    let (dl, total) = t.combined().unwrap();
    assert_eq!(dl as f64, 105.0 * 1024.0 * 1024.0);
    assert_eq!(total.map(|t| t as f64), Some(110.0 * 1024.0 * 1024.0));
    t.new_pass("x.webp");
    assert_eq!(t.combined(), None);
    assert_eq!(t.completed as f64, 110.0 * 1024.0 * 1024.0);
}

#[test]
fn formats_sizes() {
    assert_eq!(fmt_size(440), "440B");
    assert_eq!(fmt_size((512.0 * 1024.0) as u64), "512.0KiB");
    assert_eq!(fmt_size((26.9 * 1024.0 * 1024.0) as u64), "26.9MiB");
    assert_eq!(parse_size("2.50GiB").map(|b| b as f64), Some(2.5 * 1024f64.powi(3)));
}

#[test]
fn formats_sizes_round_half_even_and_gib() {
    assert_eq!(fmt_size(1023), "1023B");
    assert_eq!(fmt_size(1024), "1.0KiB");
    assert_eq!(fmt_size(1024 * 1024 * 1024 * 3), "3.0GiB");
    assert_eq!(fmt_size(1024 * 1024 * 1024 * 2048), "2048.0GiB");
    // 1.25 KiB is a tie between 1.2 and 1.3: the even digit wins.
    assert_eq!(fmt_size(1280), "1.2KiB");
    assert_eq!(fmt_size(1331), "1.3KiB");
}

#[test]
fn sizes_reject_bad_tokens() {
    assert_eq!(parse_size("12"), None);
    assert_eq!(parse_size("MiB"), None);
    assert_eq!(parse_size("1.5TiB"), Some(1649267441664));
    assert_eq!(parse_size("7B"), Some(7));
    assert_eq!(parse_percent("no percent"), None);
    assert_eq!(parse_percent("[download] x%"), None);
}

#[test]
fn ytdlp_bin_and_auth_args() {
    let y = YtDlp::default();
    assert_eq!(y.bin(), "yt-dlp");
    assert!(y.auth_args().is_empty());
    let y = YtDlp {
        bin: Some("/opt/yt".into()),
        cookies_browser: Some("firefox".into()),
        cookies_file: Some("c.txt".into()),
    };
    assert_eq!(y.bin(), "/opt/yt");
    assert_eq!(y.auth_args(), vec!["--cookies-from-browser".to_string(), "firefox".to_string()]);
    let y = YtDlp { bin: None, cookies_browser: None, cookies_file: Some("c.txt".into()) };
    assert_eq!(y.auth_args(), vec!["--cookies".to_string(), "c.txt".to_string()]);
}
