//! Video export with ffmpeg: quoting of filter arguments, reading of the
//! filter list, and the storyboard layout.

use vstd::prelude::*;
use vstd::relations::sorted_by;
use crate::decimal::{decimal_floor_wide, nat_text, parse_decimal, parse_decimal_spec, scaled_floor, u64_text, Decimal};
use crate::download::{push_arg, push_args};
use crate::ingest::string_views;
use crate::text::{
    ends_with, ends_with_exec, chars_of, chars_eq, join, join_exec, lines, lines_of, push_all, push_str, runs, runs_exec, starts_with,
    starts_with_exec, string_of, subvec, trim, trim_vec, vv, RunKind,
};

verus! {

/// What the installed ffmpeg offers.
#[derive(Debug, Clone, Copy)]
pub struct FfmpegFeatures {
    /// Built with libass (the `ass` or `subtitles` filter).
    pub ass: bool,
}

/// How one character is written inside a quoted filter argument: `\` is
/// doubled, `'` closes the quote, is escaped, and reopens it.
pub open spec fn esc_char(c: char) -> Seq<char> {
    if c == '\\' {
        seq!['\\', '\\']
    } else if c == '\'' {
        seq!['\'', '\\', '\'', '\'']
    } else {
        seq![c]
    }
}

pub open spec fn esc_body(s: Seq<char>) -> Seq<char>
    decreases s.len(),
{
    if s.len() == 0 {
        Seq::empty()
    } else {
        esc_body(s.drop_last()) + esc_char(s.last())
    }
}

/// A path as an ffmpeg filter argument: single-quoted, escaped by `esc_char`.
pub open spec fn esc_filter_path_spec(p: Seq<char>) -> Seq<char> {
    seq!['\''] + esc_body(p) + seq!['\'']
}

/// Reads an escaped body back, left to right: `\\` gives `\`, `'\''`
/// gives `'`, any other character stands for itself.
pub open spec fn unescape_body(t: Seq<char>) -> Seq<char>
    decreases t.len(),
{
    if t.len() == 0 {
        Seq::empty()
    } else if t.len() >= 2 && t[0] == '\\' && t[1] == '\\' {
        seq!['\\'] + unescape_body(t.skip(2))
    } else if t.len() >= 4 && t[0] == '\'' && t[1] == '\\' && t[2] == '\'' && t[3] == '\'' {
        seq!['\''] + unescape_body(t.skip(4))
    } else {
        seq![t[0]] + unescape_body(t.skip(1))
    }
}

proof fn lemma_esc_body_cons(c: char, s: Seq<char>)
    ensures
        esc_body(seq![c] + s) == esc_char(c) + esc_body(s),
    decreases s.len(),
{
    if s.len() == 0 {
        assert(seq![c] + s == seq![c]);
        assert(seq![c].drop_last() == Seq::<char>::empty());
        assert(esc_body(seq![c]) == esc_body(Seq::<char>::empty()) + esc_char(c));
        assert(esc_char(c) + esc_body(s) == esc_char(c));
    } else {
        let t = seq![c] + s;
        assert(t.drop_last() == seq![c] + s.drop_last());
        assert(t.last() == s.last());
        lemma_esc_body_cons(c, s.drop_last());
        assert(esc_body(t) == esc_body(seq![c] + s.drop_last()) + esc_char(s.last()));
        assert(esc_body(s) == esc_body(s.drop_last()) + esc_char(s.last()));
    }
}

proof fn lemma_unescape_esc_body(s: Seq<char>)
    ensures
        unescape_body(esc_body(s)) == s,
    decreases s.len(),
{
    if s.len() > 0 {
        let c = s[0];
        let rest = s.skip(1);
        assert(s == seq![c] + rest);
        lemma_esc_body_cons(c, rest);
        lemma_unescape_esc_body(rest);
        let t = esc_char(c) + esc_body(rest);
        assert(esc_body(s) == t);
        let k = esc_char(c).len() as int;
        assert(t.skip(k) == esc_body(rest));
        assert(unescape_body(t) == seq![c] + unescape_body(esc_body(rest)));
    }
}

/// Quoting can be undone: the argument is `'`, an escaped body, `'`, and
/// reading the body back (`\\` as `\`, `'\''` as `'`) gives the path.
pub proof fn lemma_esc_filter_path_inverse(p: Seq<char>)
    ensures
        esc_filter_path_spec(p).len() >= 2,
        esc_filter_path_spec(p)[0] == '\'',
        esc_filter_path_spec(p).last() == '\'',
        unescape_body(esc_filter_path_spec(p).subrange(1, esc_filter_path_spec(p).len() - 1)) == p,
{
    let q = esc_filter_path_spec(p);
    assert(q.subrange(1, q.len() - 1) == esc_body(p));
    lemma_unescape_esc_body(p);
}

/// Distinct paths are quoted as distinct filter arguments.
pub proof fn lemma_esc_filter_path_injective(a: Seq<char>, b: Seq<char>)
    ensures
        esc_filter_path_spec(a) == esc_filter_path_spec(b) ==> a == b,
{
    lemma_esc_filter_path_inverse(a);
    lemma_esc_filter_path_inverse(b);
}

/// `str::replace` with a non-empty pattern: scanning from the left, each
/// occurrence of `pat` that does not overlap an earlier replaced one becomes
/// `rep`; other characters are kept.
pub open spec fn replace_all(s: Seq<char>, pat: Seq<char>, rep: Seq<char>) -> Seq<char>
    decreases s.len(),
{
    if s.len() == 0 || pat.len() == 0 {
        s
    } else if pat.len() <= s.len() && s.take(pat.len() as int) == pat {
        rep + replace_all(s.skip(pat.len() as int), pat, rep)
    } else {
        seq![s[0]] + replace_all(s.skip(1), pat, rep)
    }
}

/// The path with each backslash doubled (the first step of the escaping).
pub open spec fn doubled_backslashes(p: Seq<char>) -> Seq<char>
    decreases p.len(),
{
    if p.len() == 0 {
        Seq::empty()
    } else {
        (if p[0] == '\\' { seq!['\\', '\\'] } else { seq![p[0]] }) + doubled_backslashes(p.skip(1))
    }
}

proof fn lemma_undo_quotes(p: Seq<char>)
    ensures
        replace_all(esc_body(p), seq!['\'', '\\', '\'', '\''], seq!['\'']) == doubled_backslashes(p),
    decreases p.len(),
{
    let q = seq!['\'', '\\', '\'', '\''];
    if p.len() == 0 {
        assert(esc_body(p) == Seq::<char>::empty());
    } else {
        let c = p[0];
        let rest = p.skip(1);
        assert(p == seq![c] + rest);
        lemma_esc_body_cons(c, rest);
        lemma_undo_quotes(rest);
        let e = esc_body(rest);
        let t = esc_char(c) + e;
        assert(esc_body(p) == t);
        if c == '\'' {
            assert(t.take(4) == q);
            assert(t.skip(4) == e);
        } else if c == '\\' {
            assert(t[0] == '\\');
            let t1 = t.skip(1);
            assert(t1 == seq!['\\'] + e);
            assert(t1[0] == '\\');
            assert(t1.skip(1) == e);
            assert(replace_all(t1, q, seq!['\'']) == seq!['\\'] + replace_all(e, q, seq!['\'']));
            assert(replace_all(t, q, seq!['\'']) == seq!['\\'] + replace_all(t1, q, seq!['\'']));
            assert(seq!['\\'] + (seq!['\\'] + doubled_backslashes(rest)) == seq!['\\', '\\'] + doubled_backslashes(rest));
        } else {
            assert(t[0] == c);
            assert(t.skip(1) == e);
        }
    }
}

proof fn lemma_undo_doubling(p: Seq<char>)
    ensures
        replace_all(doubled_backslashes(p), seq!['\\', '\\'], seq!['\\']) == p,
    decreases p.len(),
{
    let d = seq!['\\', '\\'];
    if p.len() > 0 {
        let c = p[0];
        let rest = p.skip(1);
        lemma_undo_doubling(rest);
        let e = doubled_backslashes(rest);
        let t = doubled_backslashes(p);
        if c == '\\' {
            assert(t == d + e);
            assert(t.take(2) == d);
            assert(t.skip(2) == e);
        } else {
            assert(t == seq![c] + e);
            assert(t[0] == c);
            assert(t.skip(1) == e);
        }
        assert(p == seq![c] + rest);
    }
}

/// The quoting undone as `str::replace` would undo it: the argument is `'`,
/// a body, `'`; in the body, replacing `'\''` by `'` and then `\\` by `\`
/// gives the path back (every `'` of the path became `'\''` and every
/// backslash was doubled).
pub proof fn lemma_esc_filter_path_replace_chain(p: Seq<char>)
    ensures
        esc_filter_path_spec(p).len() >= 2,
        esc_filter_path_spec(p)[0] == '\'',
        esc_filter_path_spec(p).last() == '\'',
        replace_all(
            replace_all(
                esc_filter_path_spec(p).subrange(1, esc_filter_path_spec(p).len() - 1),
                seq!['\'', '\\', '\'', '\''],
                seq!['\''],
            ),
            seq!['\\', '\\'],
            seq!['\\'],
        ) == p,
{
    let q = esc_filter_path_spec(p);
    assert(q.subrange(1, q.len() - 1) == esc_body(p));
    lemma_undo_quotes(p);
    lemma_undo_doubling(p);
}

/// Quotes a path for an ffmpeg filter: see `esc_filter_path_spec`.
pub fn esc_filter_path(p: &str) -> (r: String)
    ensures
        r@ == esc_filter_path_spec(p@),
{
    let s = chars_of(p);
    let mut out: Vec<char> = Vec::new();
    out.push('\'');
    let mut i: usize = 0;
    while i < s.len()
        invariant
            i <= s.len(),
            out@ == seq!['\''] + esc_body(s@.take(i as int)),
        decreases s.len() - i,
    {
        assert(s@.take(i + 1).drop_last() == s@.take(i as int));
        let c = s[i];
        let ghost o0 = out@;
        if c == '\\' {
            out.push('\\');
            out.push('\\');
        } else if c == '\'' {
            out.push('\'');
            out.push('\\');
            out.push('\'');
            out.push('\'');
        } else {
            out.push(c);
        }
        assert(out@ =~= o0 + esc_char(c));
        i += 1;
    }
    assert(s@.take(s.len() as int) == s@);
    out.push('\'');
    string_of(out.as_slice())
}

/// A line of `ffmpeg -filters` whose second column is `ass` or `subtitles`.
pub open spec fn is_ass_line(line: Seq<char>) -> bool {
    let ts = runs(line, RunKind::NotSpace);
    ts.len() >= 2 && (ts[1] == "ass"@ || ts[1] == "subtitles"@)
}

/// Whether the filter list names a libass filter.
pub open spec fn has_ass_filter_spec(out: Seq<char>) -> bool {
    exists|i: int| 0 <= i < lines(out).len() && #[trigger] is_ass_line(lines(out)[i])
}

fn lit_eq(s: &Vec<char>, lit: &str) -> (r: bool)
    ensures
        r == (s@ == lit@),
{
    let l = chars_of(lit);
    chars_eq(s, &l)
}

/// Reads `ffmpeg -filters` output: see `has_ass_filter_spec`.
pub fn has_ass_filter(out: &str) -> (r: bool)
    ensures
        r == has_ass_filter_spec(out@),
{
    let o = chars_of(out);
    let ls = lines_of(&o);
    let ghost lv = vv(ls@);
    let mut i: usize = 0;
    while i < ls.len()
        invariant
            i <= ls.len(),
            lv == vv(ls@),
            lv == lines(out@),
            forall|k: int| 0 <= k < i ==> !#[trigger] is_ass_line(lv[k]),
        decreases ls.len() - i,
    {
        assert(lv[i as int] == ls@[i as int]@);
        let ts = runs_exec(&ls[i], RunKind::NotSpace);
        if ts.len() >= 2 {
            assert(vv(ts@)[1] == ts@[1]@);
            if lit_eq(&ts[1], "ass") || lit_eq(&ts[1], "subtitles") {
                assert(is_ass_line(lv[i as int]));
                return true;
            }
        }
        i += 1;
    }
    false
}

/// The storyboard step in milliseconds: a 360th of the video, kept between
/// 8 and 30 seconds (the 360th rounded down to a millisecond).
pub open spec fn storyboard_interval_spec(duration_ms: nat) -> nat {
    let raw = duration_ms / 360;
    if raw < 8000 {
        8000
    } else if raw > 30000 {
        30000
    } else {
        raw
    }
}

/// The storyboard step: see `storyboard_interval_spec`.
pub fn storyboard_interval(duration_ms: u64) -> (r: u64)
    ensures
        r as nat == storyboard_interval_spec(duration_ms as nat),
{
    let raw = duration_ms / 360;
    if raw < 8000 {
        8000
    } else if raw > 30000 {
        30000
    } else {
        raw
    }
}

/// How many storyboard frames cover the video: the duration over the step,
/// rounded up.
pub fn storyboard_count(duration_ms: u64, interval_ms: u64) -> (r: u64)
    requires
        interval_ms > 0,
    ensures
        r as int == (duration_ms as int + interval_ms - 1) / interval_ms as int,
{
    let q = duration_ms / interval_ms;
    let rem = duration_ms % interval_ms;
    proof {
        vstd::arithmetic::div_mod::lemma_fundamental_div_mod(duration_ms as int, interval_ms as int);
        let d = duration_ms as int;
        let k = interval_ms as int;
        if rem == 0 {
            vstd::arithmetic::div_mod::lemma_fundamental_div_mod_converse(d + k - 1, k, q as int, k - 1);
        } else {
            let qi = q as int;
            assert(d == k * qi + rem);
            assert(d + k - 1 == (qi + 1) * k + (rem - 1)) by (nonlinear_arith)
                requires
                    d == k * qi + rem,
            ;
            vstd::arithmetic::div_mod::lemma_fundamental_div_mod_converse(
                d + k - 1, k, qi + 1, rem as int - 1);
            assert(k >= 2);
            assert(qi * 2 <= d) by (nonlinear_arith)
                requires
                    d == k * qi + rem,
                    k >= 2,
                    qi >= 0,
                    rem >= 0,
            ;
        }
    }
    if rem == 0 { q } else { q + 1 }
}

// ---------------------------------------------------------------------------
// Times written for ffmpeg
// ---------------------------------------------------------------------------

/// Three digits, with leading zeros.
pub open spec fn pad3(n: nat) -> Seq<char> {
    if n < 10 {
        "00"@ + nat_text(n)
    } else if n < 100 {
        "0"@ + nat_text(n)
    } else {
        nat_text(n)
    }
}

/// Milliseconds as seconds with three decimals ("12.345").
pub open spec fn secs3(ms: nat) -> Seq<char> {
    nat_text(ms / 1000) + "."@ + pad3(ms % 1000)
}

fn pad3_exec(n: u64) -> (r: Vec<char>)
    ensures
        r@ == pad3(n as nat),
{
    let d = u64_text(n);
    if n < 10 {
        let mut v = chars_of("00");
        push_all(&mut v, &d);
        v
    } else if n < 100 {
        let mut v = chars_of("0");
        push_all(&mut v, &d);
        v
    } else {
        d
    }
}

/// Writes milliseconds as seconds: see `secs3`.
pub fn secs3_exec(ms: u64) -> (r: Vec<char>)
    ensures
        r@ == secs3(ms as nat),
{
    let mut v = u64_text(ms / 1000);
    push_str(&mut v, ".");
    let f = pad3_exec(ms % 1000);
    push_all(&mut v, &f);
    v
}

// ---------------------------------------------------------------------------
// Export arguments
// ---------------------------------------------------------------------------

/// How the subtitles go into the exported clip, with the files already
/// written: burnt in by libass from an ASS file (with the fonts folder);
/// burnt in as timed PNG overlays through a filter script; added as a soft
/// subtitle track from an SRT file; or none.
#[derive(Debug, Clone)]
pub enum SubtitleBurn {
    Ass { ass_path: String, fonts_dir: String },
    Overlays { png_paths: Vec<String>, script_path: String },
    Soft { srt_path: String },
    Plain,
}

/// Which way the subtitles go: ASS when given, else overlays when there are
/// any, else the SRT text when given, else none.
#[derive(Debug, Clone, Copy, PartialEq, Eq)]
pub enum BurnMode {
    Ass,
    Overlays,
    Soft,
    Plain,
}

pub open spec fn burn_mode_spec(has_ass: bool, overlays: nat, has_srt: bool) -> BurnMode {
    if has_ass {
        BurnMode::Ass
    } else if overlays > 0 {
        BurnMode::Overlays
    } else if has_srt {
        BurnMode::Soft
    } else {
        BurnMode::Plain
    }
}

/// Chooses how the subtitles go: see `burn_mode_spec`.
pub fn burn_mode(has_ass: bool, overlays: usize, has_srt: bool) -> (r: BurnMode)
    ensures
        r == burn_mode_spec(has_ass, overlays as nat, has_srt),
{
    if has_ass {
        BurnMode::Ass
    } else if overlays > 0 {
        BurnMode::Overlays
    } else if has_srt {
        BurnMode::Soft
    } else {
        BurnMode::Plain
    }
}

/// The clip's cut: seeking on the input to the start and stopping at the
/// end, when both are given and the end is after the start.
pub open spec fn seek_args_spec(start_ms: Option<u64>, end_ms: Option<u64>) -> Seq<Seq<char>> {
    match (start_ms, end_ms) {
        (Some(s), Some(e)) => if e > s {
            seq!["-ss"@, secs3(s as nat), "-to"@, secs3(e as nat)]
        } else {
            Seq::empty()
        },
        _ => Seq::empty(),
    }
}

/// One PNG overlay input: looped at 30 frames per second.
pub open spec fn overlay_input(p: Seq<char>) -> Seq<Seq<char>> {
    seq!["-loop"@, "1"@, "-framerate"@, "30"@, "-i"@, p]
}

pub open spec fn overlay_inputs(ps: Seq<Seq<char>>) -> Seq<Seq<char>>
    decreases ps.len(),
{
    if ps.len() == 0 {
        Seq::empty()
    } else {
        overlay_inputs(ps.drop_last()) + overlay_input(ps.last())
    }
}

/// The subtitle part of the arguments.
pub open spec fn burn_args_spec(b: SubtitleBurn) -> Seq<Seq<char>> {
    match b {
        SubtitleBurn::Ass { ass_path, fonts_dir } => seq![
            "-vf"@,
            "ass="@ + esc_filter_path_spec(ass_path@) + ":fontsdir="@ + esc_filter_path_spec(fonts_dir@),
        ],
        SubtitleBurn::Overlays { png_paths, script_path } => overlay_inputs(string_views(png_paths@)) + seq![
            "-filter_complex_script"@,
            script_path@,
            "-map"@,
            "[vout]"@,
            "-map"@,
            "0:a"@,
        ],
        SubtitleBurn::Soft { srt_path } => seq!["-i"@, srt_path@, "-map"@, "0:v"@, "-map"@, "0:a"@, "-map"@, "1:s"@],
        SubtitleBurn::Plain => Seq::empty(),
    }
}

/// ffmpeg's arguments for an export: the cut, the input, the subtitles,
/// H.264 at CRF 20 (veryfast, yuv420p) with 160 kb/s AAC, a `mov_text`
/// track for soft subtitles, fast start, progress on stdout, no stats, no
/// input, overwrite, and the output path.
pub open spec fn export_args_spec(
    start_ms: Option<u64>,
    end_ms: Option<u64>,
    video: Seq<char>,
    b: SubtitleBurn,
    out_path: Seq<char>,
) -> Seq<Seq<char>> {
    seek_args_spec(start_ms, end_ms) + seq!["-i"@, video] + burn_args_spec(b) + seq![
        "-c:v"@,
        "libx264"@,
        "-preset"@,
        "veryfast"@,
        "-crf"@,
        "20"@,
        "-pix_fmt"@,
        "yuv420p"@,
        "-c:a"@,
        "aac"@,
        "-b:a"@,
        "160k"@,
    ] + (if b is Soft {
        seq!["-c:s"@, "mov_text"@]
    } else {
        Seq::empty()
    }) + seq![
        "-movflags"@,
        "+faststart"@,
        "-progress"@,
        "pipe:1"@,
        "-nostats"@,
        "-nostdin"@,
        "-y"@,
        out_path,
    ]
}

fn push_chars(v: &mut Vec<String>, a: &Vec<char>)
    ensures
        string_views(final(v)@) == string_views(old(v)@).push(a@),
{
    let ghost v0 = v@;
    v.push(string_of(a.as_slice()));
    assert(string_views(v@) =~= string_views(v0).push(a@));
}

fn seek_args(start_ms: Option<u64>, end_ms: Option<u64>) -> (r: Vec<String>)
    ensures
        string_views(r@) == seek_args_spec(start_ms, end_ms),
{
    let mut a: Vec<String> = Vec::new();
    match (start_ms, end_ms) {
        (Some(s), Some(e)) => {
            if e > s {
                push_arg(&mut a, "-ss");
                let sv = secs3_exec(s);
                push_chars(&mut a, &sv);
                push_arg(&mut a, "-to");
                let ev = secs3_exec(e);
                push_chars(&mut a, &ev);
            }
        },
        _ => {},
    }
    assert(string_views(a@) =~= seek_args_spec(start_ms, end_ms));
    a
}

fn overlay_args(png_paths: &Vec<String>, script_path: &str) -> (r: Vec<String>)
    ensures
        string_views(r@) == overlay_inputs(string_views(png_paths@)) + seq![
            "-filter_complex_script"@,
            script_path@,
            "-map"@,
            "[vout]"@,
            "-map"@,
            "0:a"@,
        ],
{
    let mut a: Vec<String> = Vec::new();
    let ghost pv = string_views(png_paths@);
    let mut i: usize = 0;
    while i < png_paths.len()
        invariant
            i <= png_paths.len(),
            pv == string_views(png_paths@),
            string_views(a@) == overlay_inputs(pv.take(i as int)),
        decreases png_paths.len() - i,
    {
        assert(pv.take(i + 1).drop_last() == pv.take(i as int));
        push_arg(&mut a, "-loop");
        push_arg(&mut a, "1");
        push_arg(&mut a, "-framerate");
        push_arg(&mut a, "30");
        push_arg(&mut a, "-i");
        push_arg(&mut a, png_paths[i].as_str());
        assert(string_views(a@) =~= overlay_inputs(pv.take(i + 1)));
        i += 1;
    }
    assert(pv.take(png_paths.len() as int) == pv);
    push_arg(&mut a, "-filter_complex_script");
    push_arg(&mut a, script_path);
    push_arg(&mut a, "-map");
    push_arg(&mut a, "[vout]");
    push_arg(&mut a, "-map");
    push_arg(&mut a, "0:a");
    a
}

fn burn_args(burn: &SubtitleBurn) -> (r: Vec<String>)
    ensures
        string_views(r@) == burn_args_spec(*burn),
{
    match burn {
        SubtitleBurn::Ass { ass_path, fonts_dir } => {
            let mut a: Vec<String> = Vec::new();
            push_arg(&mut a, "-vf");
            let mut vf = chars_of("ass=");
            let e1 = esc_filter_path(ass_path.as_str());
            push_str(&mut vf, e1.as_str());
            push_str(&mut vf, ":fontsdir=");
            let e2 = esc_filter_path(fonts_dir.as_str());
            push_str(&mut vf, e2.as_str());
            push_chars(&mut a, &vf);
            assert(string_views(a@) =~= burn_args_spec(*burn));
            a
        },
        SubtitleBurn::Overlays { png_paths, script_path } => overlay_args(png_paths, script_path.as_str()),
        SubtitleBurn::Soft { srt_path } => {
            let mut a: Vec<String> = Vec::new();
            push_arg(&mut a, "-i");
            push_arg(&mut a, srt_path.as_str());
            push_arg(&mut a, "-map");
            push_arg(&mut a, "0:v");
            push_arg(&mut a, "-map");
            push_arg(&mut a, "0:a");
            push_arg(&mut a, "-map");
            push_arg(&mut a, "1:s");
            assert(string_views(a@) =~= burn_args_spec(*burn));
            a
        },
        SubtitleBurn::Plain => {
            let a: Vec<String> = Vec::new();
            assert(string_views(a@) =~= burn_args_spec(*burn));
            a
        },
    }
}

fn codec_args(soft: bool) -> (r: Vec<String>)
    ensures
        string_views(r@) == seq![
            "-c:v"@,
            "libx264"@,
            "-preset"@,
            "veryfast"@,
            "-crf"@,
            "20"@,
            "-pix_fmt"@,
            "yuv420p"@,
            "-c:a"@,
            "aac"@,
            "-b:a"@,
            "160k"@,
        ] + (if soft {
            seq!["-c:s"@, "mov_text"@]
        } else {
            Seq::empty()
        }),
{
    let mut a: Vec<String> = Vec::new();
    push_arg(&mut a, "-c:v");
    push_arg(&mut a, "libx264");
    push_arg(&mut a, "-preset");
    push_arg(&mut a, "veryfast");
    push_arg(&mut a, "-crf");
    push_arg(&mut a, "20");
    push_arg(&mut a, "-pix_fmt");
    push_arg(&mut a, "yuv420p");
    push_arg(&mut a, "-c:a");
    push_arg(&mut a, "aac");
    push_arg(&mut a, "-b:a");
    push_arg(&mut a, "160k");
    if soft {
        push_arg(&mut a, "-c:s");
        push_arg(&mut a, "mov_text");
    }
    assert(string_views(a@) =~= seq![
        "-c:v"@,
        "libx264"@,
        "-preset"@,
        "veryfast"@,
        "-crf"@,
        "20"@,
        "-pix_fmt"@,
        "yuv420p"@,
        "-c:a"@,
        "aac"@,
        "-b:a"@,
        "160k"@,
    ] + (if soft {
        seq!["-c:s"@, "mov_text"@]
    } else {
        Seq::empty()
    }));
    a
}

fn output_args(out_path: &str) -> (r: Vec<String>)
    ensures
        string_views(r@) == seq![
            "-movflags"@,
            "+faststart"@,
            "-progress"@,
            "pipe:1"@,
            "-nostats"@,
            "-nostdin"@,
            "-y"@,
            out_path@,
        ],
{
    let mut a: Vec<String> = Vec::new();
    push_arg(&mut a, "-movflags");
    push_arg(&mut a, "+faststart");
    push_arg(&mut a, "-progress");
    push_arg(&mut a, "pipe:1");
    push_arg(&mut a, "-nostats");
    push_arg(&mut a, "-nostdin");
    push_arg(&mut a, "-y");
    push_arg(&mut a, out_path);
    assert(string_views(a@) =~= seq![
        "-movflags"@,
        "+faststart"@,
        "-progress"@,
        "pipe:1"@,
        "-nostats"@,
        "-nostdin"@,
        "-y"@,
        out_path@,
    ]);
    a
}

/// Builds the export arguments: see `export_args_spec`.
pub fn export_args(start_ms: Option<u64>, end_ms: Option<u64>, video: &str, burn: &SubtitleBurn, out_path: &str) -> (r: Vec<String>)
    ensures
        string_views(r@) == export_args_spec(start_ms, end_ms, video@, *burn, out_path@),
{
    let mut a = seek_args(start_ms, end_ms);
    push_arg(&mut a, "-i");
    push_arg(&mut a, video);
    push_args(&mut a, burn_args(burn));
    let soft = match burn {
        SubtitleBurn::Soft { .. } => true,
        _ => false,
    };
    push_args(&mut a, codec_args(soft));
    push_args(&mut a, output_args(out_path));
    assert(string_views(a@) =~= export_args_spec(start_ms, end_ms, video@, *burn, out_path@));
    a
}

// ---------------------------------------------------------------------------
// PNG overlays
// ---------------------------------------------------------------------------

/// The file of overlay `i`: `cue_` and the index padded to three digits.
pub open spec fn overlay_png_name_spec(i: nat) -> Seq<char> {
    "cue_"@ + pad3(i) + ".png"@
}

/// Names the file of overlay `i`: see `overlay_png_name_spec`.
pub fn overlay_png_name(i: u64) -> (r: String)
    ensures
        r@ == overlay_png_name_spec(i as nat),
{
    let mut v = chars_of("cue_");
    let p = pad3_exec(i);
    push_all(&mut v, &p);
    push_str(&mut v, ".png");
    string_of(v.as_slice())
}

/// Overlay `i` laid over the picture so far while the time is within its
/// window (seconds from the clip's start).
pub open spec fn overlay_step(i: nat, w: (u64, u64)) -> Seq<char> {
    "[v"@ + nat_text(i) + "]["@ + nat_text(i + 1) + ":v]overlay=0:0:eof_action=pass:enable='between(t,"@
        + secs3(w.0 as nat) + ","@ + secs3(w.1 as nat) + ")'[v"@ + nat_text(i + 1) + "];\n"@
}

pub open spec fn overlay_steps(ws: Seq<(u64, u64)>) -> Seq<char>
    decreases ws.len(),
{
    if ws.len() == 0 {
        Seq::empty()
    } else {
        overlay_steps(ws.drop_last()) + overlay_step((ws.len() - 1) as nat, ws.last())
    }
}

/// The filter script for PNG overlays with these time windows (ms from the
/// clip's start): the picture in RGBA, each overlay in turn, then yuv420p.
pub open spec fn overlay_script_spec(ws: Seq<(u64, u64)>) -> Seq<char> {
    "[0:v]format=rgba[v0];\n"@ + overlay_steps(ws) + "[v"@ + nat_text(ws.len()) + "]format=yuv420p[vout]\n"@
}

/// Writes the overlay filter script: see `overlay_script_spec`.
pub fn overlay_script(windows: &Vec<(u64, u64)>) -> (r: String)
    ensures
        r@ == overlay_script_spec(windows@),
{
    let mut v = chars_of("[0:v]format=rgba[v0];\n");
    let ghost head = v@;
    let mut i: usize = 0;
    while i < windows.len()
        invariant
            i <= windows.len(),
            v@ == head + overlay_steps(windows@.take(i as int)),
        decreases windows.len() - i,
    {
        assert(windows@.take(i + 1).drop_last() == windows@.take(i as int));
        let ghost v0 = v@;
        push_str(&mut v, "[v");
        let a = u64_text(i as u64);
        push_all(&mut v, &a);
        push_str(&mut v, "][");
        let b = crate::decimal::u128_text(i as u128 + 1);
        push_all(&mut v, &b);
        push_str(&mut v, ":v]overlay=0:0:eof_action=pass:enable='between(t,");
        let s0 = secs3_exec(windows[i].0);
        push_all(&mut v, &s0);
        push_str(&mut v, ",");
        let s1 = secs3_exec(windows[i].1);
        push_all(&mut v, &s1);
        push_str(&mut v, ")'[v");
        push_all(&mut v, &b);
        push_str(&mut v, "];\n");
        assert(v@ =~= v0 + overlay_step(i as nat, windows@[i as int]));
        i += 1;
    }
    assert(windows@.take(windows.len() as int) == windows@);
    push_str(&mut v, "[v");
    let n = u64_text(windows.len() as u64);
    push_all(&mut v, &n);
    push_str(&mut v, "]format=yuv420p[vout]\n");
    string_of(v.as_slice())
}

// ---------------------------------------------------------------------------
// Export progress
// ---------------------------------------------------------------------------

/// The export's percentage in thousandths from an `out_time_ms=` line of
/// ffmpeg's progress (microseconds, despite the name) over the clip's
/// length: kept between 0 and 99 percent; a negative time counts as 0;
/// other lines give nothing.
pub open spec fn export_line_pct(line: Seq<char>, total_ms: u64) -> Option<u64> {
    if starts_with(line, "out_time_ms="@) {
        let v = line.skip(12);
        let t = if total_ms == 0 {
            1
        } else {
            total_ms as nat
        };
        if v.len() > 0 && v[0] == '-' && parse_decimal_spec(v.skip(1)) is Some {
            Some(0)
        } else {
            match parse_decimal_spec(v) {
                Some(d) => {
                    let p = scaled_floor(d, 100) / t;
                    Some(
                        if p > 99000 {
                            99000
                        } else {
                            p as u64
                        },
                    )
                },
                None => None,
            }
        }
    } else {
        None
    }
}

/// A percentage in thousandths, rounded to tenths.
pub open spec fn tenths(p: u64) -> u64 {
    ((p + 50) / 100) as u64
}

/// After a line: the last reported percentage and the report, in tenths of
/// a percent. A report comes when the percentage is 0.2 above the last one
/// reported (or is the first).
pub open spec fn export_step(last: Option<u64>, line: Seq<char>, total_ms: u64) -> (Option<u64>, Option<u64>) {
    match export_line_pct(line, total_ms) {
        Some(p) => match last {
            Some(q) => if p > q + 200 {
                (Some(p), Some(tenths(p)))
            } else {
                (last, None)
            },
            None => (Some(p), Some(tenths(p))),
        },
        None => (last, None),
    }
}

/// The export progress seen so far: the last reported percentage.
#[derive(Debug, Clone, Copy)]
pub struct ExportMonitor {
    pub last_milli: Option<u64>,
}

impl ExportMonitor {
    /// Nothing reported yet.
    pub fn new() -> (r: ExportMonitor)
        ensures
            r.last_milli is None,
    {
        ExportMonitor { last_milli: None }
    }

    /// Takes one progress line for a clip of `total_ms`: see `export_step`.
    pub fn on_line(&mut self, line: &str, total_ms: u64) -> (r: Option<u64>)
        ensures
            (final(self).last_milli, r) == export_step(old(self).last_milli, line@, total_ms),
    {
        let l = chars_of(line);
        let key = chars_of("out_time_ms=");
        if !starts_with_exec(&l, &key) {
            return None;
        }
        proof {
            reveal_strlit("out_time_ms=");
        }
        let v = subvec(&l, 12, l.len());
        assert(v@ == l@.skip(12));
        let t: u64 = if total_ms == 0 { 1 } else { total_ms };
        let mut neg = false;
        if v.len() > 0 && v[0] == '-' {
            let rest = subvec(&v, 1, v.len());
            assert(rest@ == v@.skip(1));
            match parse_decimal(&rest) {
                Some(_) => {
                    neg = true;
                },
                None => {},
            }
        }
        let p: u64 = if neg {
            0
        } else {
            match parse_decimal(&v) {
                Some(d) => {
                    let x = decimal_floor_wide(d, 100) / (t as u128);
                    if x > 99000 {
                        99000
                    } else {
                        x as u64
                    }
                },
                None => {
                    return None;
                },
            }
        };
        let report = match self.last_milli {
            Some(q) => p > 200 && p - 200 > q,
            None => true,
        };
        if report {
            self.last_milli = Some(p);
            Some((p + 50) / 100)
        } else {
            None
        }
    }
}

/// Export reports only go up: a report's percentage is above the last one
/// reported, in thousandths by more than 0.2 and also after rounding to
/// tenths.
pub proof fn lemma_export_reports_increase(last: Option<u64>, line: Seq<char>, total_ms: u64)
    ensures
        ({
            let (l2, r) = export_step(last, line, total_ms);
            &&& r is Some ==> (l2 is Some && r.unwrap() == tenths(l2.unwrap()))
            &&& r is Some && last is Some ==> (l2.unwrap() > last.unwrap() + 200 && r.unwrap() > tenths(last.unwrap()))
            &&& r is None ==> l2 == last
        }),
{
}

/// What a failed export reports: the last four lines of ffmpeg's error
/// output, or "ffmpeg 导出失败" when they are blank.
pub open spec fn export_failure_spec(stderr: Seq<char>) -> Seq<char> {
    let ls = lines(stderr);
    let k: int = if ls.len() < 4 {
        ls.len() as int
    } else {
        4
    };
    let tail = join(ls.subrange(ls.len() - k, ls.len() as int), "\n"@);
    if trim(tail).len() == 0 {
        "ffmpeg 导出失败"@
    } else {
        tail
    }
}

/// Sums up a failed export: see `export_failure_spec`.
pub fn export_failure_message(stderr: &str) -> (r: String)
    ensures
        r@ == export_failure_spec(stderr@),
{
    let e = chars_of(stderr);
    let ls = lines_of(&e);
    let k: usize = if ls.len() < 4 { ls.len() } else { 4 };
    let mut tail: Vec<Vec<char>> = Vec::new();
    let mut i: usize = ls.len() - k;
    while i < ls.len()
        invariant
            ls.len() - k <= i <= ls.len(),
            vv(tail@) == vv(ls@).subrange(ls.len() - k, i as int),
            k <= ls.len(),
        decreases ls.len() - i,
    {
        let ghost t0 = tail@;
        let line = subvec(&ls[i], 0, ls[i].len());
        assert(line@ == ls@[i as int]@);
        tail.push(line);
        let ghost lo = ls.len() - k;
        assert(vv(ls@).subrange(lo, i + 1) =~= vv(ls@).subrange(lo, i as int).push(vv(ls@)[i as int]));
        assert(vv(tail@) =~= vv(t0).push(ls@[i as int]@));
        i += 1;
    }
    let nl = chars_of("\n");
    let joined = join_exec(&tail, &nl);
    let t = trim_vec(&joined);
    if t.len() == 0 {
        let m = chars_of("ffmpeg 导出失败");
        string_of(m.as_slice())
    } else {
        string_of(joined.as_slice())
    }
}

// ---------------------------------------------------------------------------
// Storyboard
// ---------------------------------------------------------------------------

/// The cached frames are used when there are enough of them for a video
/// that has any.
pub fn storyboard_cached(cached: usize, count: u64) -> (r: bool)
    ensures
        r == (cached as nat >= count as nat && count > 0),
{
    cached as u64 >= count && count > 0
}

/// ffmpeg's arguments for the storyboard: errors only, key frames only,
/// the video, one frame per step scaled to 160x90, `count` frames, JPEG
/// quality 4, overwrite, the output pattern.
pub open spec fn storyboard_args_spec(video: Seq<char>, interval_ms: u64, count: u64, pattern: Seq<char>) -> Seq<Seq<char>> {
    seq![
        "-loglevel"@,
        "error"@,
        "-skip_frame"@,
        "nokey"@,
        "-i"@,
        video,
        "-vf"@,
        "fps=1/"@ + secs3(interval_ms as nat) + ",scale=160:90"@,
        "-frames:v"@,
        nat_text(count as nat),
        "-q:v"@,
        "4"@,
        "-y"@,
        pattern,
    ]
}

/// Builds the storyboard arguments: see `storyboard_args_spec`.
pub fn storyboard_args(video: &str, interval_ms: u64, count: u64, pattern: &str) -> (r: Vec<String>)
    ensures
        string_views(r@) == storyboard_args_spec(video@, interval_ms, count, pattern@),
{
    let mut a: Vec<String> = Vec::new();
    push_arg(&mut a, "-loglevel");
    push_arg(&mut a, "error");
    push_arg(&mut a, "-skip_frame");
    push_arg(&mut a, "nokey");
    push_arg(&mut a, "-i");
    push_arg(&mut a, video);
    push_arg(&mut a, "-vf");
    let mut vf = chars_of("fps=1/");
    let sv = secs3_exec(interval_ms);
    push_all(&mut vf, &sv);
    push_str(&mut vf, ",scale=160:90");
    push_chars(&mut a, &vf);
    push_arg(&mut a, "-frames:v");
    let c = u64_text(count);
    push_chars(&mut a, &c);
    push_arg(&mut a, "-q:v");
    push_arg(&mut a, "4");
    push_arg(&mut a, "-y");
    push_arg(&mut a, pattern);
    assert(string_views(a@) =~= storyboard_args_spec(video@, interval_ms, count, pattern@));
    a
}

/// A storyboard frame file: `sb_` ... `.jpg`.
pub open spec fn is_frame_name(n: Seq<char>) -> bool {
    starts_with(n, "sb_"@) && ends_with(n, ".jpg"@)
}

/// The frame files among the names, in listing order.
pub open spec fn frame_names(names: Seq<Seq<char>>) -> Seq<Seq<char>>
    decreases names.len(),
{
    if names.len() == 0 {
        Seq::empty()
    } else {
        let prev = frame_names(names.drop_last());
        if is_frame_name(names.last()) {
            prev.push(names.last())
        } else {
            prev
        }
    }
}

/// Texts in code point order, as `String`'s order compares them.
pub open spec fn lex_le(a: Seq<char>, b: Seq<char>) -> bool
    decreases a.len(),
{
    if a.len() == 0 {
        true
    } else if b.len() == 0 {
        false
    } else if a[0] != b[0] {
        (a[0] as int) < (b[0] as int)
    } else {
        lex_le(a.drop_first(), b.drop_first())
    }
}

pub open spec fn lex_order() -> spec_fn(Seq<char>, Seq<char>) -> bool {
    |a: Seq<char>, b: Seq<char>| lex_le(a, b)
}

proof fn lemma_lex_total(a: Seq<char>, b: Seq<char>)
    ensures
        lex_le(a, b) || lex_le(b, a),
    decreases a.len(),
{
    if a.len() > 0 && b.len() > 0 {
        if a[0] == b[0] {
            lemma_lex_total(a.drop_first(), b.drop_first());
        } else {
            assert((a[0] as int) != (b[0] as int));
        }
    }
}

proof fn lemma_lex_refl(a: Seq<char>)
    ensures
        lex_le(a, a),
    decreases a.len(),
{
    if a.len() > 0 {
        lemma_lex_refl(a.drop_first());
    }
}

proof fn lemma_lex_trans(a: Seq<char>, b: Seq<char>, c: Seq<char>)
    requires
        lex_le(a, b),
        lex_le(b, c),
    ensures
        lex_le(a, c),
    decreases a.len(),
{
    if a.len() > 0 && b.len() > 0 && c.len() > 0 && a[0] == b[0] && b[0] == c[0] {
        lemma_lex_trans(a.drop_first(), b.drop_first(), c.drop_first());
    }
}

fn lex_le_exec(a: &Vec<char>, b: &Vec<char>) -> (r: bool)
    ensures
        r == lex_le(a@, b@),
{
    let mut i: usize = 0;
    assert(a@.skip(0) =~= a@);
    assert(b@.skip(0) =~= b@);
    while i < a.len()
        invariant
            i <= a.len(),
            i <= b.len(),
            a@.take(i as int) == b@.take(i as int),
            lex_le(a@, b@) == lex_le(a@.skip(i as int), b@.skip(i as int)),
        decreases a.len() - i,
    {
        if i >= b.len() {
            assert(b@.skip(i as int).len() == 0);
            return false;
        }
        assert(a@.skip(i as int)[0] == a@[i as int]);
        assert(b@.skip(i as int)[0] == b@[i as int]);
        if a[i] != b[i] {
            return a[i] < b[i];
        }
        assert(a@.skip(i as int).drop_first() == a@.skip(i + 1));
        assert(b@.skip(i as int).drop_first() == b@.skip(i + 1));
        assert(a@.take(i + 1) == a@.take(i as int).push(a@[i as int]));
        assert(b@.take(i + 1) == b@.take(i as int).push(b@[i as int]));
        i += 1;
    }
    assert(a@.skip(i as int).len() == 0);
    true
}

fn insert_name(v: &mut Vec<Vec<char>>, x: Vec<char>)
    requires
        sorted_by(vv(old(v)@), lex_order()),
    ensures
        sorted_by(vv(final(v)@), lex_order()),
        vv(final(v)@).to_multiset() == vv(old(v)@).to_multiset().insert(x@),
{
    let ghost v0 = vv(v@);
    let mut p: usize = 0;
    while p < v.len() && lex_le_exec(&v[p], &x)
        invariant
            p <= v.len(),
            vv(v@) == v0,
            forall|k: int| 0 <= k < p ==> lex_le(v0[k], x@),
        decreases v.len() - p,
    {
        p += 1;
    }
    let ghost xv = x@;
    v.insert(p, x);
    assert(vv(v@) =~= v0.insert(p as int, xv));
    proof {
        vstd::seq_lib::to_multiset_insert(v0, p as int, xv);
        let w = vv(v@);
        if p < v0.len() {
            lemma_lex_total(v0[p as int], xv);
        }
        assert forall|i: int, j: int| 0 <= i < j < w.len() implies #[trigger] lex_order()(w[i], w[j]) by {
            if j < p {
                assert(lex_order()(v0[i], v0[j]));
            } else if j == p {
                assert(lex_le(v0[i], xv));
            } else if i < p {
                assert(w[j] == v0[j - 1]);
                assert(lex_le(v0[i], xv));
                if p < j - 1 {
                    assert(lex_order()(v0[p as int], v0[j - 1]));
                } else {
                    lemma_lex_refl(v0[p as int]);
                }
                lemma_lex_trans(xv, v0[p as int], v0[j - 1]);
                lemma_lex_trans(v0[i], xv, v0[j - 1]);
            } else if i == p {
                assert(w[j] == v0[j - 1]);
                if p < j - 1 {
                    assert(lex_order()(v0[p as int], v0[j - 1]));
                } else {
                    lemma_lex_refl(v0[p as int]);
                }
                lemma_lex_trans(xv, v0[p as int], v0[j - 1]);
            } else {
                assert(w[i] == v0[i - 1]);
                assert(w[j] == v0[j - 1]);
                assert(lex_order()(v0[i - 1], v0[j - 1]));
            }
        }
    }
}

/// The storyboard frames of a folder listing: the frame files, sorted.
pub fn storyboard_frames(names: &Vec<String>) -> (r: Vec<String>)
    ensures
        sorted_by(string_views(r@), lex_order()),
        string_views(r@).to_multiset() == frame_names(string_views(names@)).to_multiset(),
{
    let ghost nv = string_views(names@);
    let mut sorted: Vec<Vec<char>> = Vec::new();
    assert(vv(sorted@) =~= Seq::<Seq<char>>::empty());
    assert(frame_names(nv.take(0)) =~= Seq::<Seq<char>>::empty());
    let mut i: usize = 0;
    while i < names.len()
        invariant
            i <= names.len(),
            nv == string_views(names@),
            sorted_by(vv(sorted@), lex_order()),
            vv(sorted@).to_multiset() == frame_names(nv.take(i as int)).to_multiset(),
        decreases names.len() - i,
    {
        assert(nv.take(i + 1).drop_last() == nv.take(i as int));
        let n = chars_of(names[i].as_str());
        let sb = chars_of("sb_");
        let jpg = chars_of(".jpg");
        if starts_with_exec(&n, &sb) && ends_with_exec(&n, &jpg) {
            let ghost before = frame_names(nv.take(i as int));
            insert_name(&mut sorted, n);
            proof {
                vstd::seq_lib::to_multiset_build(before, nv[i as int]);
            }
        }
        i += 1;
    }
    assert(nv.take(names.len() as int) == nv);
    let mut out: Vec<String> = Vec::new();
    let mut k: usize = 0;
    while k < sorted.len()
        invariant
            k <= sorted.len(),
            string_views(out@) == vv(sorted@).take(k as int),
        decreases sorted.len() - k,
    {
        let ghost o0 = out@;
        out.push(string_of(sorted[k].as_slice()));
        assert(string_views(out@) =~= vv(sorted@).take(k + 1)) by {
            assert(string_views(out@) =~= string_views(o0).push(sorted@[k as int]@));
        }
        k += 1;
    }
    assert(vv(sorted@).take(sorted.len() as int) == vv(sorted@));
    out
}

} // verus!
