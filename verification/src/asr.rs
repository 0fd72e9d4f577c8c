//! Speech recognition for videos without captions: the settings it needs,
//! the sound track it runs on, reading the worker's output, and what its
//! failures say.

use vstd::prelude::*;
use crate::ingest::opt_view;
use crate::text::{chars_of, join, join_exec, lines, lines_of, push_all, push_str, starts_with, string_of, trim_start, trim_start_index, vv};

verus! {

/// One recognized segment: its time span in ms, the speaker when told, and
/// the text.
#[derive(Debug, Clone)]
pub struct Segment {
    pub start_ms: u64,
    pub end_ms: u64,
    pub speaker: Option<String>,
    pub text: String,
}

/// What the recognition worker reports: its segments, or an error.
#[derive(Debug, Clone)]
pub struct WorkerOut {
    pub segments: Option<Vec<Segment>>,
    pub error: Option<String>,
}

/// The Python interpreter: the configured one, else `python3`.
pub fn asr_python(configured: Option<String>) -> (r: String)
    ensures
        r@ == match opt_view(configured) {
            Some(p) => p,
            None => "python3"@,
        },
{
    match configured {
        Some(p) => p,
        None => {
            let v = chars_of("python3");
            string_of(v.as_slice())
        },
    }
}

/// The model folder: required, else the error asking to set it.
pub fn asr_model(configured: Option<String>) -> (r: Result<String, String>)
    ensures
        match configured {
            Some(m) => r == Ok::<String, String>(m),
            None => r is Err && r->Err_0@ == "请先在设置页配置 ASR 模型权重目录"@,
        },
{
    match configured {
        Some(m) => Ok(m),
        None => {
            let v = chars_of("请先在设置页配置 ASR 模型权重目录");
            Err(string_of(v.as_slice()))
        },
    }
}

/// Which sound track recognition runs on.
#[derive(Debug, Clone)]
pub enum AudioPlan {
    /// The stored sound track, which exists.
    Stored(String),
    /// Extract one from the video into a file of this name.
    Extract { video: String, wav_name: String },
}

/// The stored sound track when its file exists; else one extracted from the
/// video into `<id or "audio">.wav`; no video file is the error "视频文件缺失".
pub fn audio_plan(audio_path: Option<String>, audio_exists: bool, video_path: Option<String>, youtube_id: Option<String>) -> (r: Result<AudioPlan, String>)
    ensures
        match (audio_path, audio_exists) {
            (Some(p), true) => r matches Ok(AudioPlan::Stored(q)) && q == p,
            _ => match video_path {
                None => r is Err && r->Err_0@ == "视频文件缺失"@,
                Some(v) => r matches Ok(AudioPlan::Extract { video, wav_name }) && video == v && wav_name@ == (match opt_view(youtube_id) {
                    Some(y) => y,
                    None => "audio"@,
                }) + ".wav"@,
            },
        },
{
    match (audio_path, audio_exists) {
        (Some(p), true) => Ok(AudioPlan::Stored(p)),
        _ => match video_path {
            None => {
                let v = chars_of("视频文件缺失");
                Err(string_of(v.as_slice()))
            },
            Some(v) => {
                let mut w = match &youtube_id {
                    Some(y) => chars_of(y.as_str()),
                    None => chars_of("audio"),
                };
                push_str(&mut w, ".wav");
                Ok(AudioPlan::Extract { video: v, wav_name: string_of(w.as_slice()) })
            },
        },
    }
}

/// The lines of a text, last first, at most `k` of them.
pub open spec fn last_lines_rev(ls: Seq<Seq<char>>, k: nat) -> Seq<Seq<char>> {
    let n = if ls.len() < k {
        ls.len()
    } else {
        k
    };
    Seq::new(n, |i: int| ls[ls.len() - 1 - i])
}

/// What a failed recognition says: "ASR 进程失败:" and, on the next lines,
/// the last five lines of its error output, the last one first.
pub open spec fn asr_failure_spec(stderr: Seq<char>) -> Seq<char> {
    "ASR 进程失败:\n"@ + join(last_lines_rev(lines(stderr), 5), "\n"@)
}

/// Sums up a failed recognition: see `asr_failure_spec`.
pub fn asr_failure_message(stderr: &str) -> (r: String)
    ensures
        r@ == asr_failure_spec(stderr@),
{
    let e = chars_of(stderr);
    let ls = lines_of(&e);
    let ghost lv = vv(ls@);
    let n: usize = if ls.len() < 5 { ls.len() } else { 5 };
    let mut picked: Vec<Vec<char>> = Vec::new();
    let mut i: usize = 0;
    while i < n
        invariant
            i <= n,
            n <= ls.len(),
            n == if ls.len() < 5 { ls.len() } else { 5 },
            lv == vv(ls@),
            vv(picked@) == Seq::new(i as nat, |q: int| lv[lv.len() - 1 - q]),
        decreases n - i,
    {
        let line = crate::text::subvec(&ls[ls.len() - 1 - i], 0, ls[ls.len() - 1 - i].len());
        assert(line@ =~= ls@[ls.len() - 1 - i]@);
        assert(lv[lv.len() - 1 - i] == ls@[ls.len() - 1 - i]@);
        let ghost p0 = picked@;
        picked.push(line);
        assert(vv(picked@) =~= Seq::new((i + 1) as nat, |q: int| lv[lv.len() - 1 - q])) by {
            assert(vv(picked@) =~= vv(p0).push(lv[lv.len() - 1 - i]));
        }
        i += 1;
    }
    assert(vv(picked@) =~= last_lines_rev(lv, 5));
    let nl = chars_of("\n");
    let tail = join_exec(&picked, &nl);
    let mut m = chars_of("ASR 进程失败:\n");
    push_all(&mut m, &tail);
    string_of(m.as_slice())
}

/// The worker may log before its result: the result is the last line that
/// starts with `{` after leading white space.
pub open spec fn last_json_line(ls: Seq<Seq<char>>, i: int) -> Option<int>
    decreases i,
{
    if i <= 0 {
        None
    } else if starts_with(trim_start(ls[i - 1]), "{"@) {
        Some(i - 1)
    } else {
        last_json_line(ls, i - 1)
    }
}

/// The worker's result line, or the error "ASR 输出为空".
pub open spec fn asr_json_line_spec(stdout: Seq<char>) -> Result<Seq<char>, Seq<char>> {
    let ls = lines(stdout);
    match last_json_line(ls, ls.len() as int) {
        Some(i) => Ok(ls[i]),
        None => Err("ASR 输出为空"@),
    }
}

/// Finds the worker's result line: see `asr_json_line_spec`.
pub fn asr_json_line(stdout: &str) -> (r: Result<String, String>)
    ensures
        match r {
            Ok(l) => asr_json_line_spec(stdout@) == Ok::<Seq<char>, Seq<char>>(l@),
            Err(e) => asr_json_line_spec(stdout@) == Err::<Seq<char>, Seq<char>>(e@),
        },
{
    let o = chars_of(stdout);
    let ls = lines_of(&o);
    let ghost lv = vv(ls@);
    let mut i: usize = ls.len();
    while i > 0
        invariant
            i <= ls.len(),
            lv == vv(ls@),
            lv == lines(stdout@),
            last_json_line(lv, ls.len() as int) == last_json_line(lv, i as int),
        decreases i,
    {
        let l = &ls[i - 1];
        assert(lv[i - 1] == l@);
        let k = trim_start_index(l);
        if k < l.len() && l[k] == '{' {
            proof {
                reveal_strlit("{");
                assert(trim_start(l@) == l@.skip(k as int));
                assert(trim_start(l@)[0] == '{');
                assert(starts_with(trim_start(l@), "{"@)) by {
                    assert(trim_start(l@).subrange(0, 1) =~= "{"@);
                }
            }
            return Ok(string_of(l.as_slice()));
        }
        proof {
            reveal_strlit("{");
            assert(trim_start(l@) == l@.skip(k as int));
            if starts_with(trim_start(l@), "{"@) {
                assert(trim_start(l@).subrange(0, 1)[0] == '{');
            }
        }
        i -= 1;
    }
    let v = chars_of("ASR 输出为空");
    Err(string_of(v.as_slice()))
}

pub open spec fn segments_len(out: WorkerOut) -> nat {
    match out.segments {
        Some(v) => v@.len(),
        None => 0,
    }
}

/// The worker's segments: its error when it reports one; no segments is the
/// error "未转写出任何内容".
pub fn worker_segments(out: WorkerOut) -> (r: Result<Vec<Segment>, String>)
    ensures
        match out.error {
            Some(e) => r == Err::<Vec<Segment>, String>(e),
            None => if segments_len(out) == 0 {
                r is Err && r->Err_0@ == "未转写出任何内容"@
            } else {
                r == Ok::<Vec<Segment>, String>(out.segments.unwrap())
            },
        },
{
    match out.error {
        Some(e) => Err(e),
        None => match out.segments {
            Some(v) => if v.len() == 0 {
                let m = chars_of("未转写出任何内容");
                Err(string_of(m.as_slice()))
            } else {
                Ok(v)
            },
            None => {
                let m = chars_of("未转写出任何内容");
                Err(string_of(m.as_slice()))
            },
        },
    }
}

/// The answer of the environment check: ready with the interpreter's name,
/// or not ready with the last line of the error output and how to set up.
pub fn asr_env_message(python: &str, success: bool, stderr: &str) -> (r: Result<String, String>)
    ensures
        success ==> r is Ok && r->Ok_0@ == "ASR 环境正常（"@ + python@ + "）"@,
        !success ==> r is Err && r->Err_0@ == "ASR 环境未就绪: "@ + (if lines(stderr@).len() > 0 {
            lines(stderr@).last()
        } else {
            Seq::<char>::empty()
        }) + "\n请运行 scripts/setup_asr.sh 安装，并在设置页配置 Python 解释器路径"@,
{
    if success {
        let mut v = chars_of("ASR 环境正常（");
        push_str(&mut v, python);
        push_str(&mut v, "）");
        return Ok(string_of(v.as_slice()));
    }
    let e = chars_of(stderr);
    let ls = lines_of(&e);
    let mut v = chars_of("ASR 环境未就绪: ");
    if ls.len() > 0 {
        assert(vv(ls@).last() == ls@[ls.len() - 1]@);
        push_all(&mut v, &ls[ls.len() - 1]);
    }
    push_str(&mut v, "\n请运行 scripts/setup_asr.sh 安装，并在设置页配置 Python 解释器路径");
    Err(string_of(v.as_slice()))
}

} // verus!
