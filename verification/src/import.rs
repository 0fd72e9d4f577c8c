//! Importing a video and keeping the library: the link, the category, the
//! import steps and their reports, and what a failed download is told as.

use vstd::prelude::*;
use crate::ingest::opt_view;
use crate::text::{chars_of, find, find_exec, push_str, starts_with, starts_with_exec, string_of, trim, trim_vec};

verus! {

/// Steps of an import.
pub const IMPORT_STEPS: i32 = 4;

/// A progress report of an import: the step (from 0) of how many, its
/// label, and the percentage within the step in thousandths when known.
#[derive(Debug, Clone)]
pub struct ImportProgress {
    pub step: i32,
    pub total_steps: i32,
    pub label: String,
    pub percent_milli: Option<u128>,
}

/// A report of step `step` of the four.
pub fn import_progress(step: i32, label: &str, percent_milli: Option<u128>) -> (r: ImportProgress)
    ensures
        r.step == step,
        r.total_steps == 4,
        r.label@ == label@,
        r.percent_milli == percent_milli,
{
    let l = chars_of(label);
    ImportProgress { step, total_steps: 4, label: string_of(l.as_slice()), percent_milli }
}

/// The link to import: trimmed; an empty one is the error "链接不能为空".
pub fn import_url(url: &str) -> (r: Result<String, String>)
    ensures
        match r {
            Ok(u) => u@ == trim(url@) && trim(url@).len() > 0,
            Err(e) => trim(url@).len() == 0 && e@ == "链接不能为空"@,
        },
{
    let v = chars_of(url);
    let t = trim_vec(&v);
    if t.len() == 0 {
        let m = chars_of("链接不能为空");
        Err(string_of(m.as_slice()))
    } else {
        Ok(string_of(t.as_slice()))
    }
}

/// The category of a new video: its channel, else its uploader, else
/// "未分类".
pub open spec fn video_category_spec(channel: Option<Seq<char>>, uploader: Option<Seq<char>>) -> Seq<char> {
    match channel {
        Some(c) => c,
        None => match uploader {
            Some(u) => u,
            None => "未分类"@,
        },
    }
}

/// Chooses a new video's category: see `video_category_spec`.
pub fn video_category(channel: Option<String>, uploader: Option<String>) -> (r: String)
    ensures
        r@ == video_category_spec(opt_view(channel), opt_view(uploader)),
{
    match channel {
        Some(c) => c,
        None => match uploader {
            Some(u) => u,
            None => {
                let v = chars_of("未分类");
                string_of(v.as_slice())
            },
        },
    }
}

/// YouTube asks for a sign-in when a download's error mentions "Sign in to
/// confirm" or cookies; that is told as a hint to set the cookie source,
/// any other error as it is.
pub open spec fn download_error_spec(msg: Seq<char>) -> Seq<char> {
    if find(msg, "Sign in to confirm"@) is Some || find(msg, "cookies"@) is Some {
        "YouTube 要求人机校验。请在设置页配置「Cookies 来源」（推荐：从浏览器读取）后重试。"@
    } else {
        msg
    }
}

/// Tells a failed download: see `download_error_spec`.
pub fn download_error_message(msg: &str) -> (r: String)
    ensures
        r@ == download_error_spec(msg@),
{
    let m = chars_of(msg);
    let a = chars_of("Sign in to confirm");
    let b = chars_of("cookies");
    let hit = match find_exec(&m, &a) {
        Some(_) => true,
        None => match find_exec(&m, &b) {
            Some(_) => true,
            None => false,
        },
    };
    if hit {
        let v = chars_of("YouTube 要求人机校验。请在设置页配置「Cookies 来源」（推荐：从浏览器读取）后重试。");
        string_of(v.as_slice())
    } else {
        string_of(m.as_slice())
    }
}

/// Where a video's captions come from, and the step it reports: the
/// downloaded SRT file when there is one, else speech recognition on the
/// sound track extracted for it.
#[derive(Debug, Clone, Copy, PartialEq, Eq)]
pub enum CaptionSource {
    YouTube,
    Asr,
}

/// The source's name as stored.
pub open spec fn source_name(s: CaptionSource) -> Seq<char> {
    match s {
        CaptionSource::YouTube => "youtube"@,
        CaptionSource::Asr => "asr"@,
    }
}

/// The label of the step that handles the captions.
pub open spec fn source_step_label(s: CaptionSource) -> Seq<char> {
    match s {
        CaptionSource::YouTube => "解析字幕"@,
        CaptionSource::Asr => "提取音轨（待 ASR 转写）"@,
    }
}

/// Chooses the caption source: captions when downloaded, else recognition.
pub fn caption_source(has_subtitle_file: bool) -> (r: CaptionSource)
    ensures
        r == if has_subtitle_file {
            CaptionSource::YouTube
        } else {
            CaptionSource::Asr
        },
{
    if has_subtitle_file {
        CaptionSource::YouTube
    } else {
        CaptionSource::Asr
    }
}

impl CaptionSource {
    /// See `source_name`.
    pub fn name(&self) -> (r: String)
        ensures
            r@ == source_name(*self),
    {
        let v = match self {
            CaptionSource::YouTube => chars_of("youtube"),
            CaptionSource::Asr => chars_of("asr"),
        };
        string_of(v.as_slice())
    }

    /// See `source_step_label`.
    pub fn step_label(&self) -> (r: String)
        ensures
            r@ == source_step_label(*self),
    {
        let v = match self {
            CaptionSource::YouTube => chars_of("解析字幕"),
            CaptionSource::Asr => chars_of("提取音轨（待 ASR 转写）"),
        };
        string_of(v.as_slice())
    }
}

/// The sound track's file name for a video: its id with `.wav`.
pub fn wav_name(id: &str) -> (r: String)
    ensures
        r@ == id@ + ".wav"@,
{
    let mut v = chars_of(id);
    push_str(&mut v, ".wav");
    string_of(v.as_slice())
}

/// A media file that belongs to a video: its name starts with the video's
/// id.
pub fn is_video_file(name: &str, youtube_id: &str) -> (r: bool)
    ensures
        r == starts_with(name@, youtube_id@),
{
    let n = chars_of(name);
    let y = chars_of(youtube_id);
    starts_with_exec(&n, &y)
}

/// A new category name: trimmed; a blank one is the error "分类名不能为空".
pub fn category_name(new_name: &str) -> (r: Result<String, String>)
    ensures
        match r {
            Ok(n) => n@ == trim(new_name@) && trim(new_name@).len() > 0,
            Err(e) => trim(new_name@).len() == 0 && e@ == "分类名不能为空"@,
        },
{
    let v = chars_of(new_name);
    let t = trim_vec(&v);
    if t.len() == 0 {
        let m = chars_of("分类名不能为空");
        Err(string_of(m.as_slice()))
    } else {
        Ok(string_of(t.as_slice()))
    }
}

/// An edited category replaces the old one only when it is given and not
/// empty.
pub fn category_update(category: Option<String>) -> (r: Option<String>)
    ensures
        match category {
            Some(c) => if c@.len() > 0 { r == Some(c) } else { r is None },
            None => r is None,
        },
{
    match category {
        Some(c) => if c.as_str().is_empty() {
            None
        } else {
            Some(c)
        },
        None => None,
    }
}

} // verus!
