//! Running yt-dlp and ffmpeg: the argument lists, what each line of a
//! download's output leads to, the errors, and which downloaded file is which.

use vstd::prelude::*;
use crate::decimal::{decimal_floor_wide, scaled_floor};
use crate::ingest::{
    auth_args_spec, combined_spec, fmt_size, fmt_size_spec, new_pass_spec, opt_view, parse_percent, parse_percent_spec, parse_sizes,
    parse_sizes_spec, parse_speed, parse_speed_spec, string_views, update_spec, DlTracker, YtDlp, is_small_file,
};
use crate::text::{
    chars_eq, chars_of, ends_with, ends_with_exec, find, find_exec, lemma_find_bounds, lower, push_all, push_str,
    starts_with, starts_with_exec, string_of, subvec, to_lower, trim, trim_vec,
};

verus! {

// ---------------------------------------------------------------------------
// Progress of a download
// ---------------------------------------------------------------------------

/// A progress report: the stage, the overall percentage in thousandths of a
/// percent (kept from going back), the speed token, and "done / total" in
/// display sizes when the total is known.
#[derive(Debug, Clone)]
pub struct DlProgress {
    pub stage: String,
    pub percent_milli: Option<u128>,
    pub speed: Option<String>,
    pub detail: Option<String>,
}

pub type ProgressModel = (Seq<char>, Option<u128>, Option<Seq<char>>, Option<Seq<char>>);

pub open spec fn progress_model(p: DlProgress) -> ProgressModel {
    (p.stage@, p.percent_milli, opt_view(p.speed), opt_view(p.detail))
}

pub open spec fn opt_progress_model(p: Option<DlProgress>) -> Option<ProgressModel> {
    match p {
        Some(x) => Some(progress_model(x)),
        None => None,
    }
}

/// What the monitor remembers between lines: the byte tracker, the highest
/// percentage seen, the last percentage reported (none yet at first), and
/// the last speed reported.
#[derive(Debug, Clone)]
pub struct DlMonitor {
    pub tracker: DlTracker,
    pub max_pct: Option<u128>,
    pub emitted_pct: Option<u128>,
    pub last_speed: String,
}

pub type MonitorModel = (DlTracker, Option<u128>, Option<u128>, Seq<char>);

pub open spec fn monitor_model(m: DlMonitor) -> MonitorModel {
    (m.tracker, m.max_pct, m.emitted_pct, m.last_speed@)
}

pub open spec fn contains_text(s: Seq<char>, pat: Seq<char>) -> bool {
    find(s, pat) is Some
}

pub open spec fn stage_only(stage: Seq<char>) -> ProgressModel {
    (stage, None, None, None)
}

/// A report's percentage from the line's own percentage, in thousandths.
pub open spec fn line_pct(line: Seq<char>) -> Option<u128> {
    match parse_percent_spec(line) {
        Some(d) => Some(scaled_floor(d, 1000) as u128),
        None => None,
    }
}

/// What one output line does, given the time in ms since the last report:
///
/// - a line without `[download]` only reports the merging stage
///   (`[Merger]`, `Merging formats`) or the converting stage
///   (`[VideoConvert]`, `[SubtitlesConvertor]`);
/// - `Destination: <file>` starts a new pass;
/// - another line records the pass's bytes, then, outside caption and cover
///   passes and when it carries a percentage, a speed or a known total,
///   raises the highest percentage (bytes of all passes over their total
///   when the total is known and not zero, else the line's own) and reports
///   when that rose by half a percent since the last report, reached 100 for
///   the first time, or the speed changed and at least 300 ms passed.
pub open spec fn monitor_step(m: MonitorModel, line: Seq<char>, elapsed_ms: nat) -> (MonitorModel, Option<ProgressModel>) {
    if !contains_text(line, "[download]"@) {
        if contains_text(line, "[Merger]"@) || contains_text(line, "Merging formats"@) {
            (m, Some(stage_only("合并音视频"@)))
        } else if contains_text(line, "[VideoConvert]"@) || contains_text(line, "[SubtitlesConvertor]"@) {
            (m, Some(stage_only("转换字幕格式"@)))
        } else {
            (m, None)
        }
    } else {
        match find(line, "Destination:"@) {
            Some(idx) => ((new_pass_spec(m.0, trim(line.skip(idx + 12))), m.1, m.2, m.3), None),
            None => {
                let pct = line_pct(line);
                let speed = parse_speed_spec(line);
                let t1 = match parse_sizes_spec(line) {
                    Some(p) => update_spec(m.0, p.0, p.1),
                    None => m.0,
                };
                match combined_spec(t1) {
                    None => ((t1, m.1, m.2, m.3), None),
                    Some(c) => {
                        let dl = c.0;
                        let total = c.1;
                        if pct is None && speed is None && total is None {
                            ((t1, m.1, m.2, m.3), None)
                        } else {
                            let step = match total {
                                Some(t) => if t > 0 {
                                    Some(((dl as nat * 100000) / (t as nat)) as u128)
                                } else {
                                    pct
                                },
                                None => pct,
                            };
                            let mx = match step {
                                Some(p) => Some(
                                    match m.1 {
                                        Some(a) => if a >= p {
                                            a
                                        } else {
                                            p
                                        },
                                        None => p,
                                    },
                                ),
                                None => m.1,
                            };
                            let detail = match total {
                                Some(t) => if t > 0 {
                                    Some(fmt_size_spec(dl as nat) + " / "@ + fmt_size_spec(t as nat))
                                } else {
                                    None
                                },
                                None => None,
                            };
                            let pct_changed = match mx {
                                Some(x) => match m.2 {
                                    Some(e) => x >= e + 500,
                                    None => true,
                                },
                                None => false,
                            };
                            let done = mx == Some(100000u128) && match m.2 {
                                Some(e) => e < 100000,
                                None => true,
                            };
                            let speed_due = match speed {
                                Some(s) => s != m.3 && elapsed_ms >= 300,
                                None => false,
                            };
                            if pct_changed || done || speed_due {
                                let em = match mx {
                                    Some(x) => Some(x),
                                    None => m.2,
                                };
                                let ls = match speed {
                                    Some(s) => s,
                                    None => m.3,
                                };
                                ((t1, mx, em, ls), Some(("下载视频"@, mx, speed, detail)))
                            } else {
                                ((t1, mx, m.2, m.3), None)
                            }
                        }
                    },
                }
            },
        }
    }
}

fn has_text(s: &Vec<char>, pat: &str) -> (r: bool)
    ensures
        r == contains_text(s@, pat@),
{
    let p = chars_of(pat);
    match find_exec(s, &p) {
        Some(_) => true,
        None => false,
    }
}

fn stage_report(stage: &str) -> (r: DlProgress)
    ensures
        progress_model(r) == stage_only(stage@),
{
    let v = chars_of(stage);
    DlProgress { stage: string_of(v.as_slice()), percent_milli: None, speed: None, detail: None }
}

impl DlMonitor {
    /// Before the first line.
    pub fn new() -> (r: DlMonitor)
        ensures
            r.tracker == (DlTracker { completed: 0, cur_dl: 0, cur_total: None, skip_pass: false }),
            r.max_pct is None,
            r.emitted_pct is None,
            r.last_speed@.len() == 0,
    {
        DlMonitor {
            tracker: DlTracker { completed: 0, cur_dl: 0, cur_total: None, skip_pass: false },
            max_pct: None,
            emitted_pct: None,
            last_speed: string_of(Vec::<char>::new().as_slice()),
        }
    }

    /// Takes one output line: see `monitor_step`. The caller restarts its
    /// clock whenever a "下载视频" report comes back.
    pub fn on_line(&mut self, line: &str, elapsed_ms: u64) -> (r: Option<DlProgress>)
        ensures
            (monitor_model(*final(self)), opt_progress_model(r)) == monitor_step(
                monitor_model(*old(self)),
                line@,
                elapsed_ms as nat,
            ),
    {
        let l = chars_of(line);
        if !has_text(&l, "[download]") {
            if has_text(&l, "[Merger]") || has_text(&l, "Merging formats") {
                return Some(stage_report("合并音视频"));
            } else if has_text(&l, "[VideoConvert]") || has_text(&l, "[SubtitlesConvertor]") {
                return Some(stage_report("转换字幕格式"));
            }
            return None;
        }
        let dest = chars_of("Destination:");
        match find_exec(&l, &dest) {
            Some(idx) => {
                proof {
                    lemma_find_bounds(l@, dest@, 0);
                    reveal_strlit("Destination:");
                }
                let rest = subvec(&l, idx + 12, l.len());
                assert(rest@ == l@.skip(idx + 12));
                let d = trim_vec(&rest);
                let ds = string_of(d.as_slice());
                self.tracker.new_pass(ds.as_str());
                return None;
            },
            None => {},
        }
        let pct: Option<u128> = match parse_percent(line) {
            Some(d) => Some(decimal_floor_wide(d, 1000)),
            None => None,
        };
        let speed = parse_speed(line);
        match parse_sizes(line) {
            Some(p) => self.tracker.update(p.0, p.1),
            None => {},
        }
        let (dl, total) = match self.tracker.combined() {
            None => {
                return None;
            },
            Some(c) => c,
        };
        if pct.is_none() && speed.is_none() && total.is_none() {
            return None;
        }
        let step: Option<u128> = match total {
            Some(t) => if t > 0 {
                Some((dl as u128 * 100000) / t as u128)
            } else {
                pct
            },
            None => pct,
        };
        let mx: Option<u128> = match step {
            Some(p) => Some(
                match self.max_pct {
                    Some(a) => if a >= p {
                        a
                    } else {
                        p
                    },
                    None => p,
                },
            ),
            None => self.max_pct,
        };
        self.max_pct = mx;
        let detail: Option<String> = match total {
            Some(t) => if t > 0 {
                let mut v = chars_of(fmt_size(dl).as_str());
                push_str(&mut v, " / ");
                let tv = chars_of(fmt_size(t).as_str());
                push_all(&mut v, &tv);
                Some(string_of(v.as_slice()))
            } else {
                None
            },
            None => None,
        };
        let pct_changed = match mx {
            Some(x) => match self.emitted_pct {
                Some(e) => e <= u128::MAX - 500 && x >= e + 500,
                None => true,
            },
            None => false,
        };
        let done = match mx {
            Some(x) => x == 100000 && match self.emitted_pct {
                Some(e) => e < 100000,
                None => true,
            },
            None => false,
        };
        let speed_due = match &speed {
            Some(s) => {
                let sv = chars_of(s.as_str());
                let lv = chars_of(self.last_speed.as_str());
                !chars_eq(&sv, &lv) && elapsed_ms >= 300
            },
            None => false,
        };
        if pct_changed || done || speed_due {
            match mx {
                Some(x) => {
                    self.emitted_pct = Some(x);
                },
                None => {},
            }
            match &speed {
                Some(s) => {
                    self.last_speed = s.clone();
                },
                None => {},
            }
            let st = chars_of("下载视频");
            return Some(DlProgress { stage: string_of(st.as_slice()), percent_milli: mx, speed, detail });
        }
        None
    }
}

/// The last reported percentage is never above the highest one seen.
pub open spec fn monitor_wf(m: MonitorModel) -> bool {
    m.2 is Some ==> (m.1 is Some && m.2.unwrap() <= m.1.unwrap())
}

/// The percentage never goes back: after any line the highest percentage is
/// at least what it was, and a download report carries exactly the highest
/// percentage so far.
pub proof fn lemma_download_percent_monotone(m: MonitorModel, line: Seq<char>, elapsed_ms: nat)
    requires
        monitor_wf(m),
    ensures
        ({
            let (m2, r) = monitor_step(m, line, elapsed_ms);
            &&& monitor_wf(m2)
            &&& m.1 is Some ==> (m2.1 is Some && m.1.unwrap() <= m2.1.unwrap())
            &&& (r is Some && r.unwrap().0 == "下载视频"@) ==> r.unwrap().1 == m2.1
        }),
{
    reveal_strlit("下载视频");
    reveal_strlit("合并音视频");
    reveal_strlit("转换字幕格式");
    assert("下载视频"@.len() == 4);
    assert("合并音视频"@.len() == 5);
    assert("转换字幕格式"@.len() == 6);
}

/// The file a `[download] Destination: <file>` line names.
pub open spec fn dest_of(line: Seq<char>) -> Option<Seq<char>> {
    if !contains_text(line, "[download]"@) {
        None
    } else {
        match find(line, "Destination:"@) {
            Some(idx) => Some(trim(line.skip(idx + 12))),
            None => None,
        }
    }
}

/// The file named by the latest destination line, if any.
pub open spec fn last_dest(lines: Seq<Seq<char>>) -> Option<Seq<char>>
    decreases lines.len(),
{
    if lines.len() == 0 {
        None
    } else {
        match dest_of(lines.last()) {
            Some(d) => Some(d),
            None => last_dest(lines.drop_last()),
        }
    }
}

/// A report of the download stage itself.
pub open spec fn is_download_report(r: Option<ProgressModel>) -> bool {
    r is Some && r.unwrap().0 == "下载视频"@
}

/// The monitor fed a run of lines in order, line `i` coming `times[i]` ms
/// after the last report: the state after the run and the answer to each
/// line.
pub open spec fn monitor_run(m: MonitorModel, lines: Seq<Seq<char>>, times: Seq<nat>) -> (MonitorModel, Seq<Option<ProgressModel>>)
    decreases lines.len(),
{
    if lines.len() == 0 {
        (m, Seq::empty())
    } else {
        let (m1, rs) = monitor_run(m, lines.drop_last(), times);
        let (m2, r) = monitor_step(m1, lines.last(), times[lines.len() - 1]);
        (m2, rs.push(r))
    }
}

proof fn lemma_monitor_step_facts(m: MonitorModel, line: Seq<char>, elapsed_ms: nat)
    ensures
        ({
            let (m2, r) = monitor_step(m, line, elapsed_ms);
            &&& m2.0.skip_pass == match dest_of(line) {
                Some(d) => is_small_file(d),
                None => m.0.skip_pass,
            }
            &&& (contains_text(line, "[download]"@) && dest_of(line) is None && m.0.skip_pass) ==> r is None
            &&& (!contains_text(line, "[download]"@) && contains_text(line, "[Merger]"@)) ==> r == Some(
                stage_only("合并音视频"@),
            )
        }),
{
}

/// Over a whole run of lines: the download reports' percentages never go
/// back (once one carries a percentage, every later one carries one at
/// least as high); a progress line that follows a destination for captions
/// or the cover (`.vtt`, `.srt`, `.ass`, `.webp`, `.jpg`, `.jpeg`, `.png`)
/// gets no report; a `[Merger]` line reports the merging stage.
pub proof fn lemma_download_run(m: MonitorModel, lines: Seq<Seq<char>>, times: Seq<nat>)
    requires
        monitor_wf(m),
    ensures
        ({
            let (mf, rs) = monitor_run(m, lines, times);
            &&& rs.len() == lines.len()
            &&& monitor_wf(mf)
            &&& forall|i: int| 0 <= i < rs.len() && is_download_report(#[trigger] rs[i]) && rs[i].unwrap().1 is Some
                ==> (mf.1 is Some && rs[i].unwrap().1.unwrap() <= mf.1.unwrap())
            &&& forall|i: int, j: int|
                0 <= i < j < rs.len() && is_download_report(#[trigger] rs[i]) && is_download_report(#[trigger] rs[j])
                    && rs[i].unwrap().1 is Some ==> (rs[j].unwrap().1 is Some && rs[i].unwrap().1.unwrap()
                    <= rs[j].unwrap().1.unwrap())
            &&& mf.0.skip_pass == match last_dest(lines) {
                Some(d) => is_small_file(d),
                None => m.0.skip_pass,
            }
            &&& forall|i: int|
                0 <= i < lines.len() && contains_text(#[trigger] lines[i], "[download]"@) && dest_of(lines[i]) is None
                    && match last_dest(lines.take(i)) {
                    Some(d) => is_small_file(d),
                    None => m.0.skip_pass,
                } ==> rs[i] is None
            &&& forall|i: int|
                0 <= i < lines.len() && !contains_text(#[trigger] lines[i], "[download]"@) && contains_text(
                    lines[i],
                    "[Merger]"@,
                ) ==> rs[i] == Some(stage_only("合并音视频"@))
        }),
    decreases lines.len(),
{
    if lines.len() > 0 {
        let pre = lines.drop_last();
        lemma_download_run(m, pre, times);
        let (m1, rs1) = monitor_run(m, pre, times);
        let line = lines.last();
        let e = times[lines.len() - 1];
        lemma_download_percent_monotone(m1, line, e);
        lemma_monitor_step_facts(m1, line, e);
        let (m2, r) = monitor_step(m1, line, e);
        let rs = rs1.push(r);
        assert(monitor_run(m, lines, times) == (m2, rs));
        let last = lines.len() - 1;
        assert(pre == lines.take(last));
        assert forall|i: int| 0 <= i < rs.len() && is_download_report(#[trigger] rs[i]) && rs[i].unwrap().1 is Some
            implies (m2.1 is Some && rs[i].unwrap().1.unwrap() <= m2.1.unwrap()) by {
            if i < rs1.len() {
                assert(rs[i] == rs1[i]);
            }
        }
        assert forall|i: int, j: int|
            0 <= i < j < rs.len() && is_download_report(#[trigger] rs[i]) && is_download_report(#[trigger] rs[j])
                && rs[i].unwrap().1 is Some implies (rs[j].unwrap().1 is Some && rs[i].unwrap().1.unwrap()
                <= rs[j].unwrap().1.unwrap()) by {
            assert(rs[i] == rs1[i]);
            if j < rs1.len() {
                assert(rs[j] == rs1[j]);
            }
        }
        assert forall|i: int|
            0 <= i < lines.len() && contains_text(#[trigger] lines[i], "[download]"@) && dest_of(lines[i]) is None
                && match last_dest(lines.take(i)) {
                Some(d) => is_small_file(d),
                None => m.0.skip_pass,
            } implies rs[i] is None by {
            if i < last {
                assert(lines[i] == pre[i]);
                assert(lines.take(i) == pre.take(i));
                assert(rs[i] == rs1[i]);
            }
        }
        assert forall|i: int|
            0 <= i < lines.len() && !contains_text(#[trigger] lines[i], "[download]"@) && contains_text(
                lines[i],
                "[Merger]"@,
            ) implies rs[i] == Some(stage_only("合并音视频"@)) by {
            if i < last {
                assert(lines[i] == pre[i]);
                assert(rs[i] == rs1[i]);
            }
        }
    }
}

// ---------------------------------------------------------------------------
// Argument lists
// ---------------------------------------------------------------------------

pub(crate) fn push_arg(v: &mut Vec<String>, a: &str)
    ensures
        string_views(final(v)@) == string_views(old(v)@).push(a@),
{
    let c = chars_of(a);
    let ghost v0 = v@;
    v.push(string_of(c.as_slice()));
    assert(string_views(v@) =~= string_views(v0).push(a@));
}

pub(crate) fn push_args(v: &mut Vec<String>, more: Vec<String>)
    ensures
        string_views(final(v)@) == string_views(old(v)@) + string_views(more@),
{
    let ghost v0 = v@;
    let mut i: usize = 0;
    while i < more.len()
        invariant
            i <= more.len(),
            string_views(v@) == string_views(v0) + string_views(more@).take(i as int),
        decreases more.len() - i,
    {
        let ghost v1 = v@;
        v.push(more[i].clone());
        assert(string_views(v@) =~= string_views(v1).push(more@[i as int]@));
        assert(string_views(more@).take(i + 1) =~= string_views(more@).take(i as int).push(more@[i as int]@));
        i += 1;
    }
    assert(string_views(more@).take(more.len() as int) == string_views(more@));
}

/// The format choice: H.264 video with AAC audio first, which the player
/// can decode.
pub open spec fn format_choice() -> Seq<char> {
    "bv*[vcodec^=avc1][ext=mp4]+ba[ext=m4a]/bv*[vcodec^=avc1]+ba/b[vcodec^=avc1]/b"@
}

/// yt-dlp's arguments for a download: one video, line-wise progress,
/// resuming partial files, the format choice, remuxed to mp4, English
/// captions (uploaded and automatic) converted to SRT, the cover, the output
/// template, the cookie arguments, and the URL.
pub open spec fn download_args_spec(out_tmpl: Seq<char>, yt: YtDlp, url: Seq<char>) -> Seq<Seq<char>> {
    seq![
        "--no-playlist"@, "--newline"@, "--continue"@, "-f"@, format_choice(), "--remux-video"@, "mp4"@,
        "--write-subs"@, "--write-auto-subs"@, "--write-thumbnail"@, "--sub-langs"@, "en.*"@,
        "--convert-subs"@, "srt"@, "-o"@, out_tmpl,
    ] + auth_args_spec(yt) + seq![url]
}

/// Builds the download arguments: see `download_args_spec`.
pub fn download_args(out_tmpl: &str, yt: &YtDlp, url: &str) -> (r: Vec<String>)
    ensures
        string_views(r@) == download_args_spec(out_tmpl@, *yt, url@),
{
    let mut a: Vec<String> = Vec::new();
    push_arg(&mut a, "--no-playlist");
    push_arg(&mut a, "--newline");
    push_arg(&mut a, "--continue");
    push_arg(&mut a, "-f");
    push_arg(&mut a, "bv*[vcodec^=avc1][ext=mp4]+ba[ext=m4a]/bv*[vcodec^=avc1]+ba/b[vcodec^=avc1]/b");
    push_arg(&mut a, "--remux-video");
    push_arg(&mut a, "mp4");
    push_arg(&mut a, "--write-subs");
    push_arg(&mut a, "--write-auto-subs");
    push_arg(&mut a, "--write-thumbnail");
    push_arg(&mut a, "--sub-langs");
    push_arg(&mut a, "en.*");
    push_arg(&mut a, "--convert-subs");
    push_arg(&mut a, "srt");
    push_arg(&mut a, "-o");
    push_arg(&mut a, out_tmpl);
    push_args(&mut a, yt.auth_args());
    push_arg(&mut a, url);
    assert(string_views(a@) =~= download_args_spec(out_tmpl@, *yt, url@));
    a
}

/// yt-dlp's arguments for a video's metadata: JSON, one video, the cookie
/// arguments, the URL.
pub open spec fn fetch_info_args_spec(yt: YtDlp, url: Seq<char>) -> Seq<Seq<char>> {
    seq!["--dump-json"@, "--no-playlist"@] + auth_args_spec(yt) + seq![url]
}

/// Builds the metadata arguments: see `fetch_info_args_spec`.
pub fn fetch_info_args(yt: &YtDlp, url: &str) -> (r: Vec<String>)
    ensures
        string_views(r@) == fetch_info_args_spec(*yt, url@),
{
    let mut a: Vec<String> = Vec::new();
    push_arg(&mut a, "--dump-json");
    push_arg(&mut a, "--no-playlist");
    push_args(&mut a, yt.auth_args());
    push_arg(&mut a, url);
    assert(string_views(a@) =~= fetch_info_args_spec(*yt, url@));
    a
}

/// ffmpeg's arguments for the sound track the speech recognizer takes:
/// overwrite, the video, no picture, one channel at 16 kHz, the output.
pub open spec fn extract_audio_args_spec(video: Seq<char>, out: Seq<char>) -> Seq<Seq<char>> {
    seq!["-y"@, "-i"@, video, "-vn"@, "-ac"@, "1"@, "-ar"@, "16000"@, out]
}

/// Builds the sound track arguments: see `extract_audio_args_spec`.
pub fn extract_audio_args(video: &str, out: &str) -> (r: Vec<String>)
    ensures
        string_views(r@) == extract_audio_args_spec(video@, out@),
{
    let mut a: Vec<String> = Vec::new();
    push_arg(&mut a, "-y");
    push_arg(&mut a, "-i");
    push_arg(&mut a, video);
    push_arg(&mut a, "-vn");
    push_arg(&mut a, "-ac");
    push_arg(&mut a, "1");
    push_arg(&mut a, "-ar");
    push_arg(&mut a, "16000");
    push_arg(&mut a, out);
    assert(string_views(a@) =~= extract_audio_args_spec(video@, out@));
    a
}

/// The ffmpeg program: the configured path, else `ffmpeg`.
pub open spec fn ffmpeg_bin_spec(configured: Option<Seq<char>>) -> Seq<char> {
    match configured {
        Some(p) => p,
        None => "ffmpeg"@,
    }
}

/// Chooses the ffmpeg program: see `ffmpeg_bin_spec`.
pub fn ffmpeg_bin(configured: Option<String>) -> (r: String)
    ensures
        r@ == ffmpeg_bin_spec(opt_view(configured)),
{
    match configured {
        Some(p) => p,
        None => {
            let v = chars_of("ffmpeg");
            string_of(v.as_slice())
        },
    }
}

// ---------------------------------------------------------------------------
// Errors
// ---------------------------------------------------------------------------

/// Why running an outside tool failed.
#[derive(Debug, Clone)]
pub enum IngestError {
    /// The program is not installed where it was looked for.
    ToolNotFound(String),
    /// The program ran and failed: its name and its error output.
    Failed(String, String),
    /// Another system error, by its message.
    Io(String),
    /// Unreadable JSON, by the parser's message.
    Json(String),
}

/// What an error says.
pub open spec fn ingest_error_text(e: IngestError) -> Seq<char> {
    match e {
        IngestError::ToolNotFound(t) => "找不到外部工具 "@ + t@ + "，请在设置页配置路径"@,
        IngestError::Failed(t, d) => t@ + " 执行失败: "@ + d@,
        IngestError::Io(m) => m@,
        IngestError::Json(m) => m@,
    }
}

impl IngestError {
    /// The error's text: see `ingest_error_text`.
    pub fn message(&self) -> (r: String)
        ensures
            r@ == ingest_error_text(*self),
    {
        match self {
            IngestError::ToolNotFound(t) => {
                let mut v = chars_of("找不到外部工具 ");
                push_str(&mut v, t.as_str());
                push_str(&mut v, "，请在设置页配置路径");
                string_of(v.as_slice())
            },
            IngestError::Failed(t, d) => {
                let mut v = chars_of(t.as_str());
                push_str(&mut v, " 执行失败: ");
                push_str(&mut v, d.as_str());
                string_of(v.as_slice())
            },
            IngestError::Io(m) => m.clone(),
            IngestError::Json(m) => m.clone(),
        }
    }
}

/// A program could not be started: missing, or another system error.
pub fn spawn_error(bin: &str, not_found: bool, message: &str) -> (r: IngestError)
    ensures
        not_found ==> r == IngestError::ToolNotFound(r->ToolNotFound_0) && r->ToolNotFound_0@ == bin@,
        !not_found ==> r == IngestError::Io(r->Io_0) && r->Io_0@ == message@,
{
    if not_found {
        let v = chars_of(bin);
        IngestError::ToolNotFound(string_of(v.as_slice()))
    } else {
        let v = chars_of(message);
        IngestError::Io(string_of(v.as_slice()))
    }
}

/// A finished run: its output when it succeeded, else a failure with its
/// trimmed error output.
pub fn run_outcome(bin: &str, success: bool, stdout: String, stderr: &str) -> (r: Result<String, IngestError>)
    ensures
        success ==> r == Ok::<String, IngestError>(stdout),
        !success ==> (r is Err && r->Err_0 == IngestError::Failed(r->Err_0->Failed_0, r->Err_0->Failed_1)
            && r->Err_0->Failed_0@ == bin@ && r->Err_0->Failed_1@ == trim(stderr@)),
{
    if success {
        Ok(stdout)
    } else {
        let b = chars_of(bin);
        let e = chars_of(stderr);
        let t = trim_vec(&e);
        Err(IngestError::Failed(string_of(b.as_slice()), string_of(t.as_slice())))
    }
}

/// The error lines of a download's error output, each with its newline.
pub open spec fn error_lines(lines: Seq<Seq<char>>) -> Seq<char>
    decreases lines.len(),
{
    if lines.len() == 0 {
        Seq::empty()
    } else {
        let prev = error_lines(lines.drop_last());
        if contains_text(lines.last(), "ERROR"@) {
            prev + lines.last() + seq!['\n']
        } else {
            prev
        }
    }
}

/// What a failed download reports: its error lines, trimmed, or "未知错误"
/// when it printed none.
pub open spec fn download_failure_detail_spec(lines: Seq<Seq<char>>) -> Seq<char> {
    let b = error_lines(lines);
    if b.len() == 0 {
        "未知错误"@
    } else {
        trim(b)
    }
}

/// Sums up a failed download's error output: see
/// `download_failure_detail_spec`.
pub fn download_failure_detail(lines: &Vec<String>) -> (r: String)
    ensures
        r@ == download_failure_detail_spec(string_views(lines@)),
{
    let ghost lv = string_views(lines@);
    let mut buf: Vec<char> = Vec::new();
    let mut i: usize = 0;
    while i < lines.len()
        invariant
            i <= lines.len(),
            lv == string_views(lines@),
            buf@ == error_lines(lv.take(i as int)),
        decreases lines.len() - i,
    {
        assert(lv.take(i + 1).drop_last() == lv.take(i as int));
        let l = chars_of(lines[i].as_str());
        if has_text(&l, "ERROR") {
            push_all(&mut buf, &l);
            buf.push('\n');
        }
        i += 1;
    }
    assert(lv.take(lines.len() as int) == lv);
    if buf.len() == 0 {
        let v = chars_of("未知错误");
        string_of(v.as_slice())
    } else {
        let t = trim_vec(&buf);
        string_of(t.as_slice())
    }
}

// ---------------------------------------------------------------------------
// Downloaded files
// ---------------------------------------------------------------------------

/// Which downloaded file is looked for.
#[derive(Debug, Clone, Copy, PartialEq, Eq)]
pub enum MediaKind {
    Video,
    Subtitle,
    Thumbnail,
}

/// The extensions of each kind (with their dot), in the order they are
/// tried.
pub open spec fn kind_exts(k: MediaKind) -> Seq<Seq<char>> {
    match k {
        MediaKind::Video => seq![".mp4"@, ".mkv"@, ".webm"@, ".m4v"@],
        MediaKind::Subtitle => seq![".srt"@],
        MediaKind::Thumbnail => seq![".webp"@, ".jpg"@, ".jpeg"@, ".png"@],
    }
}

/// A file named after the video whose lowercased name ends in one of the
/// kind's extensions.
pub open spec fn media_match(name: Seq<char>, stem: Seq<char>, k: MediaKind) -> bool {
    starts_with(name, stem) && exists|j: int|
        0 <= j < kind_exts(k).len() && ends_with(lower(name), #[trigger] kind_exts(k)[j])
}

/// The first listed file that matches.
pub open spec fn first_media(names: Seq<Seq<char>>, stem: Seq<char>, k: MediaKind, i: int) -> Option<int>
    decreases names.len() - i,
{
    if i < 0 || i >= names.len() {
        None
    } else if media_match(names[i], stem, k) {
        Some(i)
    } else {
        first_media(names, stem, k, i + 1)
    }
}

fn exts_of(k: MediaKind) -> (r: Vec<Vec<char>>)
    ensures
        crate::text::vv(r@) == kind_exts(k),
{
    let mut v: Vec<Vec<char>> = Vec::new();
    match k {
        MediaKind::Video => {
            v.push(chars_of(".mp4"));
            v.push(chars_of(".mkv"));
            v.push(chars_of(".webm"));
            v.push(chars_of(".m4v"));
        },
        MediaKind::Subtitle => {
            v.push(chars_of(".srt"));
        },
        MediaKind::Thumbnail => {
            v.push(chars_of(".webp"));
            v.push(chars_of(".jpg"));
            v.push(chars_of(".jpeg"));
            v.push(chars_of(".png"));
        },
    }
    assert(crate::text::vv(v@) =~= kind_exts(k));
    v
}

/// Finds the downloaded file of a kind among the listed names: see
/// `first_media`.
pub fn find_media_file(names: &Vec<String>, stem: &str, kind: MediaKind) -> (r: Option<usize>)
    ensures
        match r {
            Some(i) => first_media(string_views(names@), stem@, kind, 0) == Some(i as int),
            None => first_media(string_views(names@), stem@, kind, 0) is None,
        },
{
    let ghost nv = string_views(names@);
    let st = chars_of(stem);
    let exts = exts_of(kind);
    let mut i: usize = 0;
    while i < names.len()
        invariant
            i <= names.len(),
            nv == string_views(names@),
            first_media(nv, stem@, kind, 0) == first_media(nv, stem@, kind, i as int),
            crate::text::vv(exts@) == kind_exts(kind),
            st@ == stem@,
        decreases names.len() - i,
    {
        let n = chars_of(names[i].as_str());
        assert(nv[i as int] == n@);
        if starts_with_exec(&n, &st) {
            let low = to_lower(&n);
            let mut j: usize = 0;
            while j < exts.len()
                invariant
                    j <= exts.len(),
                    low@ == lower(n@),
                    crate::text::vv(exts@) == kind_exts(kind),
                    starts_with(n@, stem@),
                    i < names.len(),
                    nv == string_views(names@),
                    nv[i as int] == n@,
                    first_media(nv, stem@, kind, 0) == first_media(nv, stem@, kind, i as int),
                    forall|q: int| 0 <= q < j ==> !ends_with(low@, #[trigger] kind_exts(kind)[q]),
                decreases exts.len() - j,
            {
                if ends_with_exec(&low, &exts[j]) {
                    assert(exts@[j as int]@ == kind_exts(kind)[j as int]);
                    assert(ends_with(lower(n@), kind_exts(kind)[j as int]));
                    assert(starts_with(n@, stem@));
                    assert(media_match(nv[i as int], stem@, kind));
                    return Some(i);
                }
                assert(exts@[j as int]@ == kind_exts(kind)[j as int]);
                j += 1;
            }
            assert(!media_match(n@, stem@, kind));
        }
        i += 1;
    }
    None
}

} // verus!
