//! Sentence structure of a transcript: captions become one stream of timed
//! words, filler words and stutters are removed, the stream is cut into whole
//! sentences, and the Chinese translation of each caption is shared out among
//! the sentences that overlap it.
//!
//! Times are whole milliseconds.

use vstd::prelude::*;
use std::collections::HashMap;
use crate::text::{
    ascii_lower, ascii_lowered, ascii_lowered_vec, chars_eq, chars_of, contains_char,
    ends_with, eq_ignore_ascii_case, eq_ignore_ascii_case_exec, find, is_ascii_digit_spec,
    is_ascii_lower, ascii_upper, is_digit, join, join_exec, lower, lemma_vv_push, push_all,
    runs, runs_exec, starts_with, starts_with_exec, string_of, strip_both, strip_both_vec,
    strip_end, strip_end_vec, subvec, to_ascii_upper, to_lower, trim, trim_start, trim_vec, vv,
    RunKind, Strip, rfind, find_exec, rfind_exec, lemma_find_bounds, lemma_rfind_bounds,
    trim_start_index, lemma_trim_start_len, utf8_len, utf8_len_exec, char_at_byte, char_at_byte_exec,
    lemma_char_at_byte_from, lemma_utf8_len_add, char_utf8_len, all_ascii, is_ascii, is_ws, trim_end,
    lemma_trim_end_append, lemma_trim_end_prefix, lemma_trim_commute, char_at_byte_from,
};

verus! {

// ---------------------------------------------------------------------------
// Literal word lists
// ---------------------------------------------------------------------------

/// Whether `s` is exactly the text `lit`.
pub fn lit_eq(s: &Vec<char>, lit: &str) -> (r: bool)
    ensures
        r == (s@ == lit@),
{
    let l = chars_of(lit);
    chars_eq(s, &l)
}

/// Hesitation sounds that stand as words of their own.
pub open spec fn is_filler_word(w: Seq<char>) -> bool {
    ||| w == "um"@
    ||| w == "umm"@
    ||| w == "uh"@
    ||| w == "uhh"@
    ||| w == "er"@
    ||| w == "erm"@
    ||| w == "ah"@
    ||| w == "eh"@
    ||| w == "hm"@
    ||| w == "hmm"@
    ||| w == "hmmm"@
    ||| w == "mm"@
    ||| w == "mmm"@
}

pub fn is_filler_word_exec(w: &Vec<char>) -> (r: bool)
    ensures
        r == is_filler_word(w@),
{
    lit_eq(w, "um") || lit_eq(w, "umm") || lit_eq(w, "uh") || lit_eq(w, "uhh") || lit_eq(w, "er")
        || lit_eq(w, "erm") || lit_eq(w, "ah") || lit_eq(w, "eh") || lit_eq(w, "hm") || lit_eq(
        w,
        "hmm",
    ) || lit_eq(w, "hmmm") || lit_eq(w, "mm") || lit_eq(w, "mmm")
}

/// Common abbreviations whose final `.` does not end a sentence.
pub open spec fn is_abbreviation(w: Seq<char>) -> bool {
    ||| w == "mr"@
    ||| w == "mrs"@
    ||| w == "ms"@
    ||| w == "dr"@
    ||| w == "st"@
    ||| w == "vs"@
    ||| w == "etc"@
    ||| w == "e.g"@
    ||| w == "i.e"@
    ||| w == "no"@
    ||| w == "fig"@
    ||| w == "approx"@
    ||| w == "u.s"@
    ||| w == "u.k"@
    ||| w == "u.n"@
    ||| w == "a.m"@
    ||| w == "p.m"@
    ||| w == "jr"@
    ||| w == "sr"@
    ||| w == "prof"@
    ||| w == "inc"@
    ||| w == "ltd"@
    ||| w == "co"@
    ||| w == "corp"@
    ||| w == "dept"@
}

pub fn is_abbreviation_exec(w: &Vec<char>) -> (r: bool)
    ensures
        r == is_abbreviation(w@),
{
    lit_eq(w, "mr") || lit_eq(w, "mrs") || lit_eq(w, "ms") || lit_eq(w, "dr") || lit_eq(w, "st")
        || lit_eq(w, "vs") || lit_eq(w, "etc") || lit_eq(w, "e.g") || lit_eq(w, "i.e") || lit_eq(
        w,
        "no",
    ) || lit_eq(w, "fig") || lit_eq(w, "approx") || lit_eq(w, "u.s") || lit_eq(w, "u.k")
        || lit_eq(w, "u.n") || lit_eq(w, "a.m") || lit_eq(w, "p.m") || lit_eq(w, "jr") || lit_eq(
        w,
        "sr",
    ) || lit_eq(w, "prof") || lit_eq(w, "inc") || lit_eq(w, "ltd") || lit_eq(w, "co") || lit_eq(
        w,
        "corp",
    ) || lit_eq(w, "dept")
}

// ---------------------------------------------------------------------------
// Word stream
// ---------------------------------------------------------------------------

/// A caption row: its index, time span and English text.
#[derive(Debug, Clone)]
pub struct CueFull {
    pub idx: i64,
    pub start_ms: u64,
    pub end_ms: u64,
    pub text_en: String,
}

/// One word of the stream with its share of the caption's time span.
#[derive(Debug, Clone)]
pub struct WordTok {
    pub text: String,
    pub start_ms: u64,
    pub end_ms: u64,
    pub cue_idx: i64,
}

/// A word as values: text, start, end, caption index.
pub type WordModel = (Seq<char>, u64, u64, i64);

pub open spec fn word_model(w: WordTok) -> WordModel {
    (w.text@, w.start_ms, w.end_ms, w.cue_idx)
}

pub open spec fn word_models(v: Seq<WordTok>) -> Seq<WordModel> {
    v.map_values(|w: WordTok| word_model(w))
}

pub open spec fn cue_full_model(c: CueFull) -> (i64, u64, u64, Seq<char>) {
    (c.idx, c.start_ms, c.end_ms, c.text_en@)
}

/// The time a caption spreads over its words: its length, at least 100 ms.
pub open spec fn cue_span(start: u64, end: u64) -> nat {
    if end as int - start as int > 100 {
        (end - start) as nat
    } else {
        100
    }
}

/// The words of one caption (split at white space); word `i` of `n` runs
/// from `start + floor(i * span / n)` to `start + floor((i + 1) * span / n)`.
pub open spec fn cue_words(c: (i64, u64, u64, Seq<char>)) -> Seq<WordModel> {
    let ws = runs(c.3, RunKind::NotSpace);
    let n = ws.len();
    let d = cue_span(c.1, c.2);
    Seq::new(
        n,
        |i: int| (ws[i], (c.1 + (i * d) / (n as int)) as u64, (c.1 + ((i + 1) * d) / (n as int)) as u64, c.0),
    )
}

/// The words of all captions, in order.
pub open spec fn word_stream(cues: Seq<(i64, u64, u64, Seq<char>)>) -> Seq<WordModel>
    decreases cues.len(),
{
    if cues.len() == 0 {
        Seq::empty()
    } else {
        word_stream(cues.drop_last()) + cue_words(cues.last())
    }
}

pub open spec fn cues_fit(cues: Seq<CueFull>) -> bool {
    forall|i: int| 0 <= i < cues.len() ==> #[trigger] cues[i].start_ms <= u64::MAX - 100
}

proof fn lemma_share_bounds(i: nat, n: nat, d: nat)
    requires
        i <= n,
        n > 0,
    ensures
        (i * d) / n <= d,
        (i * d) / n <= ((i + 1) * d) / n || i == n,
{
    assert(i * d <= n * d) by (nonlinear_arith)
        requires
            i <= n,
    ;
    vstd::arithmetic::div_mod::lemma_div_is_ordered(i as int * d as int, n as int * d as int, n as int);
    vstd::arithmetic::div_mod::lemma_div_multiples_vanish(d as int, n as int);
    assert(n * d == d * n) by (nonlinear_arith);
    assert(i * d <= (i + 1) * d) by (nonlinear_arith);
    vstd::arithmetic::div_mod::lemma_div_is_ordered(i as int * d as int, (i + 1) as int * d as int, n as int);
}

/// Joins the captions into one stream of timed words: see `word_stream`.
pub fn build_word_stream(cues: &Vec<CueFull>) -> (r: Vec<WordTok>)
    requires
        cues_fit(cues@),
    ensures
        word_models(r@) == word_stream(cues@.map_values(|c: CueFull| cue_full_model(c))),
{
    let ghost cm = cues@.map_values(|c: CueFull| cue_full_model(c));
    let mut out: Vec<WordTok> = Vec::new();
    let mut ci: usize = 0;
    while ci < cues.len()
        invariant
            ci <= cues.len(),
            cm == cues@.map_values(|c: CueFull| cue_full_model(c)),
            cues_fit(cues@),
            word_models(out@) == word_stream(cm.take(ci as int)),
        decreases cues.len() - ci,
    {
        let c = &cues[ci];
        assert(cm.take(ci + 1).drop_last() == cm.take(ci as int));
        assert(cm.take(ci + 1).last() == cue_full_model(*c));
        let text = chars_of(c.text_en.as_str());
        let words = runs_exec(&text, RunKind::NotSpace);
        let n = words.len();
        let ghost cw = cue_words(cue_full_model(*c));
        assert(c.start_ms <= u64::MAX - 100);
        let d: u64 = if c.end_ms > c.start_ms && c.end_ms - c.start_ms > 100 {
            c.end_ms - c.start_ms
        } else {
            100
        };
        assert(d as nat == cue_span(c.start_ms, c.end_ms));
        assert(c.start_ms + d <= u64::MAX);
        let ghost base = word_models(out@);
        let mut i: usize = 0;
        while i < n
            invariant
                i <= n,
                n == words.len(),
                n as nat == cw.len(),
                cw == cue_words(cue_full_model(*c)),
                d as nat == cue_span(c.start_ms, c.end_ms),
                c.start_ms + d <= u64::MAX,
                vv(words@) == runs(c.text_en@, RunKind::NotSpace),
                word_models(out@) == base + cw.take(i as int),
            decreases n - i,
        {
            proof {
                lemma_share_bounds(i as nat, n as nat, d as nat);
                lemma_share_bounds((i + 1) as nat, n as nat, d as nat);
                vstd::arithmetic::mul::lemma_mul_upper_bound(
                    i as int + 1, u64::MAX as int, d as int, u64::MAX as int);
                vstd::arithmetic::mul::lemma_mul_upper_bound(
                    i as int, u64::MAX as int, d as int, u64::MAX as int);
            }
            let a: u128 = (i as u128) * (d as u128) / (n as u128);
            let b: u128 = ((i + 1) as u128) * (d as u128) / (n as u128);
            let w = WordTok {
                text: string_of(words[i].as_slice()),
                start_ms: c.start_ms + a as u64,
                end_ms: c.start_ms + b as u64,
                cue_idx: c.idx,
            };
            assert(vv(words@)[i as int] == words@[i as int]@);
            let ghost before = out@;
            out.push(w);
            assert(word_models(out@) =~= word_models(before).push(word_model(w)));
            assert(cw.take(i + 1) =~= cw.take(i as int).push(cw[i as int]));
            i += 1;
        }
        assert(cw.take(n as int) == cw);
        ci += 1;
    }
    assert(cm.take(cues.len() as int) == cm);
    out
}


// ---------------------------------------------------------------------------
// Filler words, stutters and repeats
// ---------------------------------------------------------------------------

/// A word without surrounding punctuation, lowered.
pub open spec fn norm_word_spec(w: Seq<char>) -> Seq<char> {
    lower(strip_both(w, Strip::NonAlnum))
}

pub fn norm_word(w: &str) -> (r: String)
    ensures
        r@ == norm_word_spec(w@),
{
    let v = chars_of(w);
    let t = strip_both_vec(&v, Strip::NonAlnum);
    let l = to_lower(&t);
    string_of(l.as_slice())
}

fn norm_word_vec(w: &Vec<char>) -> (r: Vec<char>)
    ensures
        r@ == norm_word_spec(w@),
{
    let t = strip_both_vec(w, Strip::NonAlnum);
    to_lower(&t)
}

/// Word `i` is a cut-off start of the next word: `wh-` before `what`.
pub open spec fn is_stutter(ws: Seq<WordModel>, i: int) -> bool {
    let t = ws[i].0;
    &&& t.len() > 0
    &&& t.last() == '-'
    &&& lower(t.drop_last()).len() > 0
    &&& i + 1 < ws.len()
    &&& starts_with(norm_word_spec(ws[i + 1].0), lower(t.drop_last()))
}

pub open spec fn keep_word(ws: Seq<WordModel>, i: int) -> bool {
    !is_filler_word(norm_word_spec(ws[i].0)) && !is_stutter(ws, i)
}

/// The first `m` words without filler words and stutters.
pub open spec fn kept_words(ws: Seq<WordModel>, m: int) -> Seq<WordModel>
    decreases m,
{
    if m <= 0 {
        Seq::empty()
    } else {
        let r = kept_words(ws, m - 1);
        if keep_word(ws, m - 1) {
            r.push(ws[m - 1])
        } else {
            r
        }
    }
}

/// The `n` words from `i` repeat the last `n` words kept (ASCII case aside).
pub open spec fn repeat_at(p: Seq<WordModel>, out: Seq<WordModel>, i: int, n: int) -> bool {
    &&& out.len() >= n
    &&& i + n <= p.len()
    &&& forall|k: int|
        0 <= k < n ==> eq_ignore_ascii_case(#[trigger] p[i + k].0, out[out.len() - n + k].0)
}

/// The longest repeat (of at most three words) at `i`, or 0.
pub open spec fn repeat_len(p: Seq<WordModel>, out: Seq<WordModel>, i: int) -> int {
    if repeat_at(p, out, i, 3) {
        3
    } else if repeat_at(p, out, i, 2) {
        2
    } else if repeat_at(p, out, i, 1) {
        1
    } else {
        0
    }
}

/// Words from `i` on, after `out`, with immediate repeats of one to three
/// words dropped.
pub open spec fn collapse(p: Seq<WordModel>, i: int, out: Seq<WordModel>) -> Seq<WordModel>
    decreases p.len() - i,
{
    if i < 0 || i >= p.len() {
        out
    } else {
        let n = repeat_len(p, out, i);
        if n > 0 {
            collapse(p, i + n, out)
        } else {
            collapse(p, i + 1, out.push(p[i]))
        }
    }
}

/// Removes hesitation sounds, cut-off stutters (`wh- what`), and immediate
/// repeats of one to three words that match exactly but for ASCII case
/// (`I I I`, `sort of sort of`); a repeat with other punctuation, such as
/// `very, very`, stays.
pub open spec fn clean_word_stream_spec(ws: Seq<WordModel>) -> Seq<WordModel> {
    collapse(kept_words(ws, ws.len() as int), 0, Seq::empty())
}

fn copy_word(w: &WordTok) -> (r: WordTok)
    ensures
        word_model(r) == word_model(*w),
{
    WordTok { text: w.text.clone(), start_ms: w.start_ms, end_ms: w.end_ms, cue_idx: w.cue_idx }
}

fn keep_word_exec(words: &Vec<WordTok>, i: usize) -> (r: bool)
    requires
        i < words.len(),
    ensures
        r == keep_word(word_models(words@), i as int),
{
    let ghost ws = word_models(words@);
    let t = chars_of(words[i].text.as_str());
    let nw = norm_word_vec(&t);
    if is_filler_word_exec(&nw) {
        return false;
    }
    if t.len() > 0 && t[t.len() - 1] == '-' {
        let frag0 = subvec(&t, 0, t.len() - 1);
        assert(frag0@ == t@.drop_last());
        let frag = to_lower(&frag0);
        if frag.len() > 0 && i + 1 < words.len() {
            let nt = chars_of(words[i + 1].text.as_str());
            let nn = norm_word_vec(&nt);
            if starts_with_exec(&nn, &frag) {
                return false;
            }
        }
    }
    true
}

fn repeat_at_exec(p: &Vec<WordTok>, out: &Vec<WordTok>, i: usize, n: usize) -> (r: bool)
    requires
        i <= p.len(),
    ensures
        r == repeat_at(word_models(p@), word_models(out@), i as int, n as int),
{
    if out.len() < n || n > p.len() - i {
        return false;
    }
    let ghost pm = word_models(p@);
    let ghost om = word_models(out@);
    let mut k: usize = 0;
    while k < n
        invariant
            k <= n,
            out.len() >= n,
            i + n <= p.len(),
            pm == word_models(p@),
            om == word_models(out@),
            forall|j: int| 0 <= j < k ==> eq_ignore_ascii_case(#[trigger] pm[i + j].0, om[om.len() - n + j].0),
        decreases n - k,
    {
        let a = chars_of(p[i + k].text.as_str());
        let b = chars_of(out[out.len() - n + k].text.as_str());
        if !eq_ignore_ascii_case_exec(&a, &b) {
            assert(!eq_ignore_ascii_case(pm[i + k].0, om[om.len() - n + k as int].0));
            return false;
        }
        k += 1;
    }
    true
}

/// Removes filler words, stutters and repeats: see `clean_word_stream_spec`.
pub fn clean_word_stream(words: &Vec<WordTok>) -> (r: Vec<WordTok>)
    ensures
        word_models(r@) == clean_word_stream_spec(word_models(words@)),
{
    let ghost ws = word_models(words@);
    let mut pass1: Vec<WordTok> = Vec::new();
    let mut i: usize = 0;
    while i < words.len()
        invariant
            i <= words.len(),
            ws == word_models(words@),
            word_models(pass1@) == kept_words(ws, i as int),
        decreases words.len() - i,
    {
        if keep_word_exec(words, i) {
            let w = copy_word(&words[i]);
            let ghost before = pass1@;
            pass1.push(w);
            assert(word_models(pass1@) =~= word_models(before).push(ws[i as int]));
        }
        i += 1;
    }
    let ghost p = word_models(pass1@);
    assert(p == kept_words(ws, ws.len() as int));
    let mut out: Vec<WordTok> = Vec::new();
    assert(word_models(out@) =~= Seq::<WordModel>::empty());
    let mut i: usize = 0;
    while i < pass1.len()
        invariant
            i <= pass1.len(),
            p == word_models(pass1@),
            collapse(p, i as int, word_models(out@)) == collapse(p, 0, Seq::empty()),
        decreases pass1.len() - i,
    {
        let mut skipped = false;
        let mut n: usize = 3;
        while n >= 1
            invariant_except_break
                !skipped,
                1 <= n + 1 <= 4,
                forall|m: int| n < m <= 3 ==> !repeat_at(p, word_models(out@), i as int, m),
            invariant
                i < pass1.len(),
                p == word_models(pass1@),
            ensures
                skipped ==> n >= 1 && repeat_len(p, word_models(out@), i as int) == n as int,
                !skipped ==> repeat_len(p, word_models(out@), i as int) == 0,
            decreases n,
        {
            if repeat_at_exec(&pass1, &out, i, n) {
                skipped = true;
                break;
            }
            n -= 1;
        }
        if skipped {
            assert(i + n <= pass1.len());
            i += n;
        } else {
            let w = copy_word(&pass1[i]);
            let ghost before = out@;
            out.push(w);
            assert(word_models(out@) =~= word_models(before).push(p[i as int]));
            i += 1;
        }
    }
    out
}

// ---------------------------------------------------------------------------
// Sentence ends
// ---------------------------------------------------------------------------

pub open spec fn is_terminal(c: char) -> bool {
    c == '.' || c == '!' || c == '?'
}

/// A `.` that belongs to a number such as `3.5.`.
pub open spec fn is_decimal_point_end(t: Seq<char>) -> bool {
    let u = strip_end(t, Strip::Terminal);
    &&& u.len() > 0
    &&& is_ascii_digit_spec(u.last())
    &&& t.contains('.')
    &&& !(t.last() == '!' || t.last() == '?')
}

/// Whether a word ends a sentence: after closing quotes and brackets it ends
/// in `.`, `!` or `?`, and it is neither a number with a decimal point ending
/// in `.` nor a common abbreviation.
pub open spec fn is_sentence_end_spec(word: Seq<char>) -> bool {
    let t = strip_end(word, Strip::Closers);
    &&& t.len() > 0
    &&& is_terminal(t.last())
    &&& !is_decimal_point_end(t)
    &&& !is_abbreviation(lower(strip_end(t, Strip::Dot)))
}

pub fn is_sentence_end(word: &str) -> (r: bool)
    ensures
        r == is_sentence_end_spec(word@),
{
    let w = chars_of(word);
    is_sentence_end_vec(&w)
}

fn is_sentence_end_vec(w: &Vec<char>) -> (r: bool)
    ensures
        r == is_sentence_end_spec(w@),
{
    let t = strip_end_vec(w, Strip::Closers);
    if t.len() == 0 {
        return false;
    }
    let last = t[t.len() - 1];
    if !(last == '.' || last == '!' || last == '?') {
        return false;
    }
    let u = strip_end_vec(&t, Strip::Terminal);
    if u.len() > 0 && is_digit(u[u.len() - 1]) && contains_char(&t, '.') && !(last == '!' || last
        == '?') {
        return false;
    }
    let base0 = strip_end_vec(&t, Strip::Dot);
    let base = to_lower(&base0);
    if is_abbreviation_exec(&base) {
        return false;
    }
    true
}

// ---------------------------------------------------------------------------
// Sentences
// ---------------------------------------------------------------------------

/// A sentence as values: text, start, end, first and last caption index.
pub type SentModel = (Seq<char>, u64, u64, i64, i64);

/// A sentence: its text, time span and the captions it spans.
#[derive(Debug, Clone)]
pub struct StreamSentence {
    pub text: String,
    pub start_ms: u64,
    pub end_ms: u64,
    pub cue_from: i64,
    pub cue_to: i64,
}

pub open spec fn sent_model(s: StreamSentence) -> SentModel {
    (s.text@, s.start_ms, s.end_ms, s.cue_from, s.cue_to)
}

pub open spec fn sent_models(v: Seq<StreamSentence>) -> Seq<SentModel> {
    v.map_values(|s: StreamSentence| sent_model(s))
}

/// The sentence made of some words: their texts joined by single spaces,
/// from the first word's start to the last word's end.
pub open spec fn sentence_of(buf: Seq<WordModel>) -> SentModel {
    (
        join(buf.map_values(|w: WordModel| w.0), " "@),
        buf[0].1,
        buf.last().2,
        buf[0].3,
        buf.last().3,
    )
}

pub open spec fn sentence_state(ws: Seq<WordModel>) -> (Seq<SentModel>, Seq<WordModel>)
    decreases ws.len(),
{
    if ws.len() == 0 {
        (Seq::empty(), Seq::empty())
    } else {
        let (out, buf) = sentence_state(ws.drop_last());
        let b = buf.push(ws.last());
        if is_sentence_end_spec(ws.last().0) {
            (out.push(sentence_of(b)), Seq::empty())
        } else {
            (out, b)
        }
    }
}

/// The sentences of a word stream: each ends at a word that ends a sentence;
/// words after the last such word form a final sentence.
pub open spec fn split_sentences_from_stream_spec(ws: Seq<WordModel>) -> Seq<SentModel> {
    let (out, buf) = sentence_state(ws);
    if buf.len() > 0 {
        out.push(sentence_of(buf))
    } else {
        out
    }
}

fn sentence_from_buf(buf: &Vec<WordTok>) -> (r: StreamSentence)
    requires
        buf.len() > 0,
    ensures
        sent_model(r) == sentence_of(word_models(buf@)),
{
    let ghost bm = word_models(buf@);
    let mut texts: Vec<Vec<char>> = Vec::new();
    let mut i: usize = 0;
    while i < buf.len()
        invariant
            i <= buf.len(),
            bm == word_models(buf@),
            vv(texts@) == bm.map_values(|w: WordModel| w.0).take(i as int),
        decreases buf.len() - i,
    {
        let t = chars_of(buf[i].text.as_str());
        proof {
            lemma_vv_push(texts@, t);
        }
        texts.push(t);
        assert(bm.map_values(|w: WordModel| w.0).take(i + 1) =~= bm.map_values(|w: WordModel| w.0).take(
            i as int,
        ).push(bm[i as int].0));
        i += 1;
    }
    assert(bm.map_values(|w: WordModel| w.0).take(buf.len() as int) =~= bm.map_values(
        |w: WordModel| w.0,
    ));
    let sep = chars_of(" ");
    let joined = join_exec(&texts, &sep);
    StreamSentence {
        text: string_of(joined.as_slice()),
        start_ms: buf[0].start_ms,
        end_ms: buf[buf.len() - 1].end_ms,
        cue_from: buf[0].cue_idx,
        cue_to: buf[buf.len() - 1].cue_idx,
    }
}

/// Cuts a word stream into sentences: see `split_sentences_from_stream_spec`.
pub fn split_sentences_from_stream(words: &Vec<WordTok>) -> (r: Vec<StreamSentence>)
    ensures
        sent_models(r@) == split_sentences_from_stream_spec(word_models(words@)),
{
    let ghost ws = word_models(words@);
    let mut out: Vec<StreamSentence> = Vec::new();
    let mut buf: Vec<WordTok> = Vec::new();
    let mut i: usize = 0;
    while i < words.len()
        invariant
            i <= words.len(),
            ws == word_models(words@),
            (sent_models(out@), word_models(buf@)) == sentence_state(ws.take(i as int)),
        decreases words.len() - i,
    {
        assert(ws.take(i + 1).drop_last() == ws.take(i as int));
        let w = copy_word(&words[i]);
        let ghost b0 = buf@;
        buf.push(w);
        assert(word_models(buf@) =~= word_models(b0).push(ws[i as int]));
        if is_sentence_end(words[i].text.as_str()) {
            let s = sentence_from_buf(&buf);
            let ghost o0 = out@;
            out.push(s);
            assert(sent_models(out@) =~= sent_models(o0).push(sent_model(s)));
            buf = Vec::new();
            assert(word_models(buf@) =~= Seq::<WordModel>::empty());
        }
        i += 1;
    }
    assert(ws.take(words.len() as int) == ws);
    if buf.len() > 0 {
        let s = sentence_from_buf(&buf);
        let ghost o0 = out@;
        out.push(s);
        assert(sent_models(out@) =~= sent_models(o0).push(sent_model(s)));
    }
    out
}


// ---------------------------------------------------------------------------
// Filler phrases in a sentence
// ---------------------------------------------------------------------------

/// The text as `str::to_lowercase` gives it: `lower` (ASCII letters one by
/// one on ASCII text, the Unicode mapping otherwise).
/// An opening filler `p` (which ends in a comma) at the start of the
/// lower-cased text, followed by a space there.
pub open spec fn opener_hit(s: Seq<char>, p: Seq<char>) -> bool {
    let l = lower(s);
    p.len() < l.len() && l.take(p.len() as int) == p && l[p.len() as int] == ' '
}

/// The first opening filler of the list that starts `s`.
pub open spec fn first_opener(s: Seq<char>) -> Option<Seq<char>> {
    if opener_hit(s, "well,"@) {
        Some("well,"@)
    } else if opener_hit(s, "so,"@) {
        Some("so,"@)
    } else if opener_hit(s, "you know,"@) {
        Some("you know,"@)
    } else if opener_hit(s, "i mean,"@) {
        Some("i mean,"@)
    } else if opener_hit(s, "you see,"@) {
        Some("you see,"@)
    } else {
        None
    }
}

/// Opening fillers removed one after another ("Well, you know, I think" ->
/// "I think"), with the white space after each. A filler is found in the
/// lower-cased text and cut from the text itself at the same byte offset;
/// `None` where that offset is not a character boundary of the text (where
/// the slicing panics).
pub open spec fn strip_openers(s: Seq<char>) -> Option<Seq<char>>
    decreases s.len(),
{
    match first_opener(s) {
        None => Some(s),
        Some(p) => match char_at_byte(s, p.len() as int) {
            None => None,
            Some(i) => if 0 < i <= s.len() {
                proof {
                    lemma_trim_start_len(s.skip(i));
                }
                strip_openers(trim_start(s.skip(i)))
            } else {
                Some(s)
            },
        },
    }
}

/// The text with the phrase at byte offsets `[pos, pos + len)` replaced by
/// `,`, or `None` when either offset is not a character boundary.
pub open spec fn cut_mid(s: Seq<char>, pos: int, len: int) -> Option<Seq<char>> {
    match (char_at_byte(s, pos), char_at_byte(s, pos + len)) {
        (Some(a), Some(b)) => Some(s.take(a) + seq![','] + s.skip(b)),
        _ => None,
    }
}

/// The byte offset in the lower-cased text of its first `pat`.
pub open spec fn lower_find_byte(s: Seq<char>, pat: Seq<char>) -> Option<int> {
    match find(lower(s), pat) {
        Some(ci) => Some(utf8_len(lower(s).take(ci)) as int),
        None => None,
    }
}

/// The byte offset in the lower-cased text of its last `pat`.
pub open spec fn lower_rfind_byte(s: Seq<char>, pat: Seq<char>) -> Option<int> {
    match rfind(lower(s), pat) {
        Some(ci) => Some(utf8_len(lower(s).take(ci)) as int),
        None => None,
    }
}

pub proof fn lemma_cut_mid_shorter(s: Seq<char>, pos: int, len: int)
    requires
        len >= 2,
        cut_mid(s, pos, len) is Some,
    ensures
        utf8_len(cut_mid(s, pos, len).unwrap()) < utf8_len(s),
{
    let a = char_at_byte(s, pos).unwrap();
    let b = char_at_byte(s, pos + len).unwrap();
    lemma_char_at_byte_from(s, pos, 0);
    lemma_char_at_byte_from(s, pos + len, 0);
    assert(s == s.take(b) + s.skip(b));
    lemma_utf8_len_add(s.take(b), s.skip(b));
    lemma_utf8_len_add(s.take(a), seq![',']);
    lemma_utf8_len_add(s.take(a) + seq![','], s.skip(b));
    assert(utf8_len(seq![',']) == 1) by {
        assert(seq![','].drop_last() == Seq::<char>::empty());
        assert(seq![','].last() == ',');
        assert((',' as u32) == 44);
        assert(char_utf8_len(',') == 1);
        assert(utf8_len(Seq::<char>::empty()) == 0);
        assert(utf8_len(seq![',']) == utf8_len(seq![','].drop_last()) + char_utf8_len(seq![','].last()));
    }
}

/// Every `, you know,` of the lower-cased text replaced by `,` in the text,
/// from the left, until none is left; the phrase is cut at the byte offsets
/// where it lies in the lower-cased text, and `None` is the panic of a cut
/// inside a character.
pub open spec fn remove_mid(s: Seq<char>, pat: Seq<char>) -> Option<Seq<char>>
    decreases utf8_len(s),
{
    if pat.len() < 2 {
        Some(s)
    } else {
        match lower_find_byte(s, pat) {
            None => Some(s),
            Some(pos) => match cut_mid(s, pos, pat.len() as int) {
                None => None,
                Some(t) => {
                    proof {
                        lemma_cut_mid_shorter(s, pos, pat.len() as int);
                    }
                    remove_mid(t, pat)
                },
            },
        }
    }
}

pub open spec fn is_trailing_mark(c: char) -> bool {
    c == '.' || c == '!' || c == '?' || c == '"' || c == '\'' || c == ')'
}

/// The last `, you know` of the lower-cased text removed from the text when
/// only closing punctuation (at least one mark) follows it, cut at the same
/// byte offsets; `None` where a cut falls inside a character.
pub open spec fn remove_trailing(s: Seq<char>, pat: Seq<char>) -> Option<Seq<char>> {
    match lower_rfind_byte(s, pat) {
        None => Some(s),
        Some(pos) => match char_at_byte(s, pos + pat.len()) {
            None => None,
            Some(b) => {
                let after = s.skip(b);
                if after.len() > 0 && forall|i: int| 0 <= i < after.len() ==> #[trigger] is_trailing_mark(after[i]) {
                    match char_at_byte(s, pos) {
                        None => None,
                        Some(a) => Some(s.take(a) + after),
                    }
                } else {
                    Some(s)
                }
            },
        },
    }
}

/// The first character raised when it is an ASCII lower-case letter.
pub open spec fn capitalize(s: Seq<char>) -> Seq<char> {
    if s.len() > 0 && is_ascii_lower(s[0]) {
        s.update(0, ascii_upper(s[0]))
    } else {
        s
    }
}

pub open spec fn and_then_mid(o: Option<Seq<char>>, pat: Seq<char>) -> Option<Seq<char>> {
    match o {
        Some(s) => remove_mid(s, pat),
        None => None,
    }
}

pub open spec fn and_then_trailing(o: Option<Seq<char>>, pat: Seq<char>) -> Option<Seq<char>> {
    match o {
        Some(s) => remove_trailing(s, pat),
        None => None,
    }
}

/// Sentence clean-up, or `None` where it panics: opening fillers ("Well, ",
/// "You know, "), fillers set off by commas inside (", you know, " -> ", "),
/// a filler just before the closing punctuation (", you know." -> ".");
/// then the first letter is raised when it is an ASCII lower-case letter.
/// Each phrase is looked for in the text lower-cased with
/// `str::to_lowercase` and cut from the text at the byte offsets where it
/// lies in the lower-cased one (the same places unless lowering changes a
/// character's UTF-8 length before it); a cut that falls inside a
/// character is a panic.
pub open spec fn clean_sentence_opt(text: Seq<char>) -> Option<Seq<char>> {
    let s1 = strip_openers(trim(text));
    let s2 = and_then_mid(and_then_mid(and_then_mid(s1, ", you know,"@), ", i mean,"@), ", you see,"@);
    let s3 = and_then_trailing(
        and_then_trailing(and_then_trailing(s2, ", you know"@), ", i mean"@),
        ", you see"@,
    );
    match s3 {
        Some(t) => Some(capitalize(t)),
        None => None,
    }
}

/// The cleaned sentence (see `clean_sentence_opt`), for a text on which the
/// clean-up does not panic.
pub open spec fn clean_sentence_text_spec(text: Seq<char>) -> Seq<char> {
    clean_sentence_opt(text).unwrap()
}

proof fn lemma_ascii_byte_offsets(s: Seq<char>, i: int)
    requires
        all_ascii(s),
        0 <= i <= s.len(),
    ensures
        utf8_len(s.take(i)) == i,
    decreases i,
{
    if i > 0 {
        lemma_ascii_byte_offsets(s, i - 1);
        assert(s.take(i).drop_last() == s.take(i - 1));
        assert(is_ascii(s[i - 1]));
    }
}

proof fn lemma_ascii_char_at(s: Seq<char>, b: int, i: int)
    requires
        all_ascii(s),
        0 <= i <= b <= s.len(),
    ensures
        char_at_byte_from(s, b, i) == Some(b),
    decreases b - i,
{
    lemma_ascii_byte_offsets(s, i);
    if i < b {
        lemma_ascii_char_at(s, b, i + 1);
    }
}

proof fn lemma_not_opener(s: Seq<char>, q: Seq<char>, d: int)
    requires
        all_ascii(s),
        0 <= d < q.len(),
        d < s.len(),
        ascii_lower(s[d]) != q[d],
    ensures
        !opener_hit(s, q),
{
    let l = lower(s);
    if q.len() < l.len() && l.take(q.len() as int) == q {
        assert(l.take(q.len() as int)[d] == l[d]);
    }
}

#[verifier::spinoff_prover]
#[verifier::rlimit(40)]
proof fn lemma_first_opener_is(opener: Seq<char>, s: Seq<char>)
    requires
        opener == "well"@ || opener == "so"@ || opener == "you know"@ || opener == "i mean"@ || opener == "you see"@,
        all_ascii(s),
        s.len() > opener.len() + 1,
        s.take(opener.len() + 2int) == opener + ", "@,
    ensures
        first_opener(s) == Some(opener + ","@),
{
    reveal_strlit("well");
    reveal_strlit("so");
    reveal_strlit("you know");
    reveal_strlit("i mean");
    reveal_strlit("you see");
    reveal_strlit(", ");
    reveal_strlit("well,");
    reveal_strlit("so,");
    reveal_strlit("you know,");
    reveal_strlit("i mean,");
    reveal_strlit("you see,");
    reveal_strlit(",");
    let p = opener + ","@;
    let h = opener + ", "@;
    assert forall|j: int| 0 <= j <= p.len() implies #[trigger] s[j] == h[j] by {
        assert(s.take(opener.len() + 2int)[j] == s[j]);
    }
    assert forall|j: int| 0 <= j < p.len() implies #[trigger] s[j] == p[j] by {
        assert(s[j] == h[j]);
    }
    assert(s[p.len() as int] == ' ');
    let l = lower(s);
    assert(l == s.map_values(|c: char| ascii_lower(c)));
    // The filler is the first opener of the list that the sentence starts with.
    assert forall|j: int| 0 <= j <= p.len() implies #[trigger] l[j] == s[j] by {
        assert(s[j] == h[j]);
    }
    assert(l.take(p.len() as int) =~= p);
    assert(opener_hit(s, p));
    if opener != "well"@ {
        lemma_not_opener(s, "well,"@, 0);
    }
    if opener != "well"@ && opener != "so"@ {
        lemma_not_opener(s, "so,"@, 0);
    }
    if opener == "i mean"@ {
        lemma_not_opener(s, "you know,"@, 0);
    }
    if opener == "you see"@ {
        lemma_not_opener(s, "you know,"@, 4);
        lemma_not_opener(s, "i mean,"@, 0);
    }
    if opener == "well"@ {
        assert(p =~= "well,"@);
    } else if opener == "so"@ {
        assert(p =~= "so,"@);
    } else if opener == "you know"@ {
        assert(p =~= "you know,"@);
    } else if opener == "i mean"@ {
        assert(p =~= "i mean,"@);
    } else {
        assert(p =~= "you see,"@);
    }
    assert(first_opener(s) == Some(p));
}

/// An opening filler followed by a comma and a space is dropped: for each
/// of "well", "so", "you know", "i mean", "you see" and any ASCII rest of
/// the sentence that is not all white space, cleaning `<filler>, <rest>`
/// gives what cleaning `<rest>` gives.
#[verifier::spinoff_prover]
#[verifier::rlimit(40)]
pub proof fn lemma_opener_dropped(opener: Seq<char>, rest: Seq<char>)
    requires
        opener == "well"@ || opener == "so"@ || opener == "you know"@ || opener == "i mean"@ || opener == "you see"@,
        all_ascii(rest),
        exists|i: int| 0 <= i < rest.len() && !is_ws(#[trigger] rest[i]),
    ensures
        clean_sentence_opt(opener + ", "@ + rest) == clean_sentence_opt(rest),
{
    reveal_strlit("well");
    reveal_strlit("so");
    reveal_strlit("you know");
    reveal_strlit("i mean");
    reveal_strlit("you see");
    reveal_strlit(", ");
    reveal_strlit("well,");
    reveal_strlit("so,");
    reveal_strlit("you know,");
    reveal_strlit("i mean,");
    reveal_strlit("you see,");
    reveal_strlit(",");
    let t = opener + ", "@ + rest;
    let p = opener + ","@;
    let head = opener + ", "@;
    assert(t == head + rest);
    // The sentence trimmed: only the rest's trailing white space goes.
    assert(!is_ws(t[0]));
    assert(trim_start(t) == t);
    lemma_trim_end_append(head, rest);
    let te = trim_end(rest);
    lemma_trim_end_prefix(rest);
    let s = head + te;
    assert(trim(t) == s);
    assert(s == p + seq![' '] + te);
    assert forall|i: int| 0 <= i < s.len() implies #[trigger] is_ascii(s[i]) by {
        if i >= head.len() {
            assert(s[i] == rest[i - head.len()]);
        }
    }
    assert(all_ascii(s));
    assert(s.take(opener.len() + 2int) =~= head);
    lemma_first_opener_is(opener, s);
    // The cut falls on a character boundary, right after the comma.
    lemma_ascii_char_at(s, p.len() as int, 0);
    assert(char_at_byte(s, p.len() as int) == Some(p.len() as int));
    let after = s.skip(p.len() as int);
    assert(after == seq![' '] + te);
    assert(is_ws(after[0]));
    assert(after.drop_first() == te);
    assert(trim_start(after) == trim_start(te));
    lemma_trim_commute(rest);
    assert(strip_openers(s) == strip_openers(trim(rest)));
}

fn opener_hit_exec(s: &Vec<char>, l: &Vec<char>, p: &str) -> (r: bool)
    requires
        l@ == lower(s@),
    ensures
        r == opener_hit(s@, p@),
{
    let pv = chars_of(p);
    if pv.len() >= l.len() {
        return false;
    }
    let head = subvec(l, 0, pv.len());
    assert(head@ == l@.take(pv.len() as int));
    chars_eq(&head, &pv) && l[pv.len()] == ' '
}

fn first_opener_exec(s: &Vec<char>) -> (r: Option<Vec<char>>)
    ensures
        match r {
            Some(p) => first_opener(s@) == Some(p@),
            None => first_opener(s@) is None,
        },
{
    let l = to_lower(s);
    if opener_hit_exec(s, &l, "well,") {
        Some(chars_of("well,"))
    } else if opener_hit_exec(s, &l, "so,") {
        Some(chars_of("so,"))
    } else if opener_hit_exec(s, &l, "you know,") {
        Some(chars_of("you know,"))
    } else if opener_hit_exec(s, &l, "i mean,") {
        Some(chars_of("i mean,"))
    } else if opener_hit_exec(s, &l, "you see,") {
        Some(chars_of("you see,"))
    } else {
        None
    }
}

fn lower_find_byte_exec(s: &Vec<char>, pv: &Vec<char>, last: bool) -> (r: Option<u128>)
    ensures
        match r {
            Some(p) => (if last { lower_rfind_byte(s@, pv@) } else { lower_find_byte(s@, pv@) }) == Some(p as int)
                && p < u128::MAX / 2,
            None => (if last { lower_rfind_byte(s@, pv@) } else { lower_find_byte(s@, pv@) }) is None,
        },
{
    let l = to_lower(s);
    let found = if last { rfind_exec(&l, pv) } else { find_exec(&l, pv) };
    match found {
        None => None,
        Some(ci) => {
            proof {
                lemma_find_bounds(l@, pv@, 0);
                lemma_rfind_bounds(l@, pv@, l@.len() - pv@.len());
                assert(rfind(l@, pv@) == crate::text::rfind_upto(l@, pv@, l@.len() - pv@.len()));
            }
            let head = subvec(&l, 0, ci);
            assert(head@ == l@.take(ci as int));
            proof {
                crate::text::lemma_utf8_len_bounds(head@);
            }
            Some(utf8_len_exec(&head))
        },
    }
}

fn remove_mid_exec(input: Vec<char>, pat: &str) -> (r: Option<Vec<char>>)
    ensures
        match r {
            Some(v) => remove_mid(input@, pat@) == Some(v@),
            None => remove_mid(input@, pat@) is None,
        },
{
    let pv = chars_of(pat);
    let ghost old_s = input@;
    let mut s = input;
    if pv.len() < 2 {
        return Some(s);
    }
    loop
        invariant
            pv@ == pat@,
            pv.len() >= 2,
            remove_mid(s@, pat@) == remove_mid(old_s, pat@),
            old_s == input@,
        decreases utf8_len(s@),
    {
        match lower_find_byte_exec(&s, &pv, false) {
            None => {
                return Some(s);
            },
            Some(pos) => {
                let a = char_at_byte_exec(&s, pos);
                let b = char_at_byte_exec(&s, pos + pv.len() as u128);
                match (a, b) {
                    (Some(a), Some(b)) => {
                        proof {
                            lemma_char_at_byte_from(s@, pos as int, 0);
                            lemma_char_at_byte_from(s@, pos + pv.len(), 0);
                            lemma_cut_mid_shorter(s@, pos as int, pv.len() as int);
                        }
                        let mut t = subvec(&s, 0, a);
                        t.push(',');
                        let rest = subvec(&s, b, s.len());
                        push_all(&mut t, &rest);
                        assert(t@ == s@.take(a as int) + seq![','] + s@.skip(b as int));
                        assert(remove_mid(s@, pat@) == remove_mid(t@, pat@));
                        s = t;
                    },
                    _ => {
                        return None;
                    },
                }
            },
        }
    }
}

fn remove_trailing_exec(s: Vec<char>, pat: &str) -> (r: Option<Vec<char>>)
    ensures
        match r {
            Some(v) => remove_trailing(s@, pat@) == Some(v@),
            None => remove_trailing(s@, pat@) is None,
        },
{
    let pv = chars_of(pat);
    match lower_find_byte_exec(&s, &pv, true) {
        None => Some(s),
        Some(pos) => {
            let b = match char_at_byte_exec(&s, pos + pv.len() as u128) {
                None => {
                    return None;
                },
                Some(b) => b,
            };
            proof {
                lemma_char_at_byte_from(s@, pos + pv.len(), 0);
            }
            let after = subvec(&s, b, s.len());
            assert(after@ == s@.skip(b as int));
            if after.len() == 0 {
                return Some(s);
            }
            let mut k: usize = 0;
            while k < after.len()
                invariant
                    k <= after.len(),
                    pv@ == pat@,
                    lower_rfind_byte(s@, pat@) == Some(pos as int),
                    char_at_byte(s@, pos + pat@.len()) == Some(b as int),
                    after@ == s@.skip(b as int),
                    forall|i: int| 0 <= i < k ==> #[trigger] is_trailing_mark(after@[i]),
                decreases after.len() - k,
            {
                let c = after[k];
                if !(c == '.' || c == '!' || c == '?' || c == '"' || c == '\'' || c == ')') {
                    assert(!is_trailing_mark(after@[k as int]));
                    return Some(s);
                }
                k += 1;
            }
            match char_at_byte_exec(&s, pos) {
                None => None,
                Some(a) => {
                    proof {
                        lemma_char_at_byte_from(s@, pos as int, 0);
                    }
                    let mut t = subvec(&s, 0, a);
                    push_all(&mut t, &after);
                    Some(t)
                },
            }
        },
    }
}

/// Sentence clean-up that reports, as `None`, a text on which it would cut
/// inside a character: see `clean_sentence_opt`.
fn clean_sentence_run(text: &str) -> (r: Option<String>)
    ensures
        match r {
            Some(t) => clean_sentence_opt(text@) == Some(t@),
            None => clean_sentence_opt(text@) is None,
        },
{
    let v = chars_of(text);
    let mut s = trim_vec(&v);
    loop
        invariant
            strip_openers(s@) == strip_openers(trim(text@)),
        ensures
            strip_openers(trim(text@)) == Some(s@),
        decreases s.len(),
    {
        match first_opener_exec(&s) {
            None => {
                break;
            },
            Some(p) => {
                let i = match char_at_byte_exec(&s, p.len() as u128) {
                    None => {
                        return None;
                    },
                    Some(i) => i,
                };
                proof {
                    lemma_char_at_byte_from(s@, p.len() as int, 0);
                    crate::text::lemma_utf8_len_bounds(s@.take(0));
                }
                if i == 0 {
                    break;
                }
                let rest = subvec(&s, i, s.len());
                assert(rest@ == s@.skip(i as int));
                let j = trim_start_index(&rest);
                let ghost s0 = s@;
                s = subvec(&rest, j, rest.len());
                assert(s@ == rest@.skip(j as int));
                assert(strip_openers(s0) == strip_openers(s@));
            },
        }
    }
    assert(strip_openers(trim(text@)) == Some(s@));
    let s = match remove_mid_exec(s, ", you know,") {
        Some(s) => s,
        None => {
            return None;
        },
    };
    let s = match remove_mid_exec(s, ", i mean,") {
        Some(s) => s,
        None => {
            return None;
        },
    };
    let s = match remove_mid_exec(s, ", you see,") {
        Some(s) => s,
        None => {
            return None;
        },
    };
    let s = match remove_trailing_exec(s, ", you know") {
        Some(s) => s,
        None => {
            return None;
        },
    };
    let s = match remove_trailing_exec(s, ", i mean") {
        Some(s) => s,
        None => {
            return None;
        },
    };
    let mut s = match remove_trailing_exec(s, ", you see") {
        Some(s) => s,
        None => {
            return None;
        },
    };
    let ghost s3 = s@;
    if s.len() > 0 && 'a' <= s[0] && s[0] <= 'z' {
        let up = to_ascii_upper(s[0]);
        s.set(0, up);
    }
    assert(s@ == capitalize(s3));
    Some(string_of(s.as_slice()))
}

/// Removes filler phrases from a sentence: see `clean_sentence_opt`; the
/// text is one on which the clean-up does not panic.
pub fn clean_sentence_text(text: &str) -> (r: String)
    requires
        clean_sentence_opt(text@) is Some,
    ensures
        r@ == clean_sentence_text_spec(text@),
{
    match clean_sentence_run(text) {
        Some(t) => t,
        None => {
            assert(false);
            String::new()
        },
    }
}

/// The clean-up of a sentence, or `None` for a text on which it panics (a
/// phrase found in the lower-cased text would be cut inside a character of
/// the text): see `clean_sentence_opt`.
pub fn clean_sentence_text_checked(text: &str) -> (r: Option<String>)
    ensures
        match r {
            Some(t) => clean_sentence_opt(text@) == Some(t@),
            None => clean_sentence_opt(text@) is None,
        },
{
    match clean_sentence_run(text) {
        Some(_) => Some(clean_sentence_text(text)),
        None => None,
    }
}


// ---------------------------------------------------------------------------
// Paragraph fallback
// ---------------------------------------------------------------------------

/// More than two seconds of silence between sentence `i` and the next.
pub open spec fn long_gap(sents: Seq<SentModel>, i: int) -> bool {
    sents[i + 1].1 as int - sents[i].2 as int > 2000
}

pub open spec fn gap_breaks(sents: Seq<SentModel>, m: int) -> Seq<usize>
    decreases m,
{
    if m <= 0 {
        Seq::empty()
    } else {
        let r = gap_breaks(sents, m - 1);
        if long_gap(sents, m - 1) {
            r.push((m - 1) as usize)
        } else {
            r
        }
    }
}

/// Paragraph breaks when none come from elsewhere: after every sentence that
/// is followed by more than two seconds of silence, in order.
pub open spec fn local_paragraph_breaks_spec(sents: Seq<SentModel>) -> Seq<usize> {
    gap_breaks(sents, sents.len() - 1)
}

pub fn local_paragraph_breaks(sents: &Vec<StreamSentence>) -> (r: Vec<usize>)
    ensures
        r@ == local_paragraph_breaks_spec(sent_models(sents@)),
{
    let ghost sm = sent_models(sents@);
    let mut breaks: Vec<usize> = Vec::new();
    if sents.len() == 0 {
        return breaks;
    }
    let mut i: usize = 0;
    while i < sents.len() - 1
        invariant
            sents.len() > 0,
            i <= sents.len() - 1,
            sm == sent_models(sents@),
            breaks@ == gap_breaks(sm, i as int),
        decreases sents.len() - 1 - i,
    {
        if sents[i + 1].start_ms > sents[i].end_ms && sents[i + 1].start_ms - sents[i].end_ms > 2000 {
            breaks.push(i);
        }
        i += 1;
    }
    breaks
}

/// `i` is among the breaks `r`.
pub open spec fn has_break(r: Seq<usize>, i: int) -> bool {
    exists|k: int| 0 <= k < r.len() && #[trigger] r[k] as int == i
}

proof fn lemma_gap_breaks(sents: Seq<SentModel>, m: int)
    requires
        0 <= m < sents.len(),
        sents.len() <= usize::MAX,
    ensures
        forall|k: int| 0 <= k < gap_breaks(sents, m).len() ==> #[trigger] gap_breaks(sents, m)[k] < m,
        forall|a: int, b: int| 0 <= a < b < gap_breaks(sents, m).len() ==> gap_breaks(sents, m)[a] < gap_breaks(sents, m)[b],
        forall|i: int| 0 <= i < m ==> (has_break(gap_breaks(sents, m), i) <==> sents[i + 1].1 as int - sents[i].2 as int > 2000),
    decreases m,
{
    if m > 0 {
        lemma_gap_breaks(sents, m - 1);
        let r = gap_breaks(sents, m - 1);
        let g = gap_breaks(sents, m);
        if long_gap(sents, m - 1) {
            assert(g == r.push((m - 1) as usize));
            assert forall|k: int| 0 <= k < g.len() implies #[trigger] g[k] < m by {
                if k < r.len() {
                    assert(g[k] == r[k]);
                }
            }
            assert forall|a: int, b: int| 0 <= a < b < g.len() implies g[a] < g[b] by {
                assert(g[a] == r[a]);
                if b < r.len() {
                    assert(g[b] == r[b]);
                }
            }
            assert forall|i: int| 0 <= i < m implies (has_break(g, i) <==> sents[i + 1].1 as int - sents[i].2 as int > 2000) by {
                if i == m - 1 {
                    assert(g[r.len() as int] as int == i);
                } else {
                    if has_break(r, i) {
                        let k = choose|k: int| 0 <= k < r.len() && #[trigger] r[k] as int == i;
                        assert(g[k] == r[k]);
                    }
                    if has_break(g, i) {
                        let k = choose|k: int| 0 <= k < g.len() && #[trigger] g[k] as int == i;
                        if k < r.len() {
                            assert(g[k] == r[k]);
                        }
                    }
                }
            }
        } else {
            assert(g == r);
            assert forall|i: int| 0 <= i < m implies (has_break(g, i) <==> sents[i + 1].1 as int - sents[i].2 as int > 2000) by {
                if i == m - 1 {
                    if has_break(r, i) {
                        let k = choose|k: int| 0 <= k < r.len() && #[trigger] r[k] as int == i;
                        assert(r[k] < m - 1);
                    }
                }
            }
        }
    }
}

/// The fallback breaks are exactly the sentences followed by more than two
/// seconds of silence, from a sentence's end to the next one's start, in
/// increasing order.
pub proof fn lemma_local_paragraph_breaks(sents: Seq<SentModel>)
    requires
        sents.len() <= usize::MAX,
    ensures
        forall|a: int, b: int|
            0 <= a < b < local_paragraph_breaks_spec(sents).len() ==> local_paragraph_breaks_spec(sents)[a]
                < local_paragraph_breaks_spec(sents)[b],
        forall|k: int|
            0 <= k < local_paragraph_breaks_spec(sents).len() ==> #[trigger] local_paragraph_breaks_spec(sents)[k] + 1
                < sents.len(),
        forall|i: int|
            0 <= i < sents.len() - 1 ==> (has_break(local_paragraph_breaks_spec(sents), i) <==> sents[i + 1].1 as int
                - sents[i].2 as int > 2000),
{
    if sents.len() > 0 {
        lemma_gap_breaks(sents, sents.len() - 1);
    } else {
        assert(local_paragraph_breaks_spec(sents) == Seq::<usize>::empty());
    }
}

// ---------------------------------------------------------------------------
// Sharing a caption's translation among sentences
// ---------------------------------------------------------------------------

pub open spec fn is_strong_punct(c: char) -> bool {
    c == '。' || c == '！' || c == '？' || c == '!' || c == '?' || c == '；' || c == ';'
}

pub open spec fn clamp_int(x: int, lo: int, hi: int) -> int {
    if x < lo {
        lo
    } else if x > hi {
        hi
    } else {
        x
    }
}

pub open spec fn max_int(a: int, b: int) -> int {
    if a >= b { a } else { b }
}

pub open spec fn min_int(a: int, b: int) -> int {
    if a <= b { a } else { b }
}

/// The largest `p` in `lo..=p0` right after strong punctuation.
pub open spec fn back_search(zh: Seq<char>, p: int, lo: int) -> Option<int>
    decreases p - lo + 1,
{
    if p < lo || p < 1 {
        None
    } else if is_strong_punct(zh[p - 1]) {
        Some(p)
    } else {
        back_search(zh, p - 1, lo)
    }
}

/// The smallest `p` in `p0..=hi` right after strong punctuation.
pub open spec fn fwd_search(zh: Seq<char>, p: int, hi: int) -> Option<int>
    decreases hi - p + 1,
{
    if p > hi || p < 1 {
        None
    } else if is_strong_punct(zh[p - 1]) {
        Some(p)
    } else {
        fwd_search(zh, p + 1, hi)
    }
}

/// A cut point clamped to `min..=total`, then moved just after strong
/// punctuation (`。！？!?；;`): first looking back up to two characters, then
/// forward up to eight; kept when neither finds one or it sits on a bound.
pub open spec fn snap_spec(zh: Seq<char>, cut: int, min: int, total: int) -> int {
    let base = clamp_int(cut, min, total);
    if base == min || base == total {
        base
    } else {
        let back = max_int(max_int(base - 2, min), 1);
        match back_search(zh, base, back) {
            Some(p) => p,
            None => match fwd_search(zh, base + 1, min_int(base + 8, total)) {
                Some(p) => p,
                None => base,
            },
        }
    }
}

proof fn lemma_back_search_bounds(zh: Seq<char>, p: int, lo: int)
    ensures
        match back_search(zh, p, lo) {
            Some(q) => lo <= q <= p && q >= 1,
            None => true,
        },
    decreases p - lo + 1,
{
    if !(p < lo || p < 1) && !is_strong_punct(zh[p - 1]) {
        lemma_back_search_bounds(zh, p - 1, lo);
    }
}

proof fn lemma_fwd_search_bounds(zh: Seq<char>, p: int, hi: int)
    ensures
        match fwd_search(zh, p, hi) {
            Some(q) => p <= q <= hi,
            None => true,
        },
    decreases hi - p + 1,
{
    if !(p > hi || p < 1) && !is_strong_punct(zh[p - 1]) {
        lemma_fwd_search_bounds(zh, p + 1, hi);
    }
}

pub proof fn lemma_snap_bounds(zh: Seq<char>, cut: int, min: int, total: int)
    requires
        min <= total,
    ensures
        min <= snap_spec(zh, cut, min, total) <= total,
{
    let base = clamp_int(cut, min, total);
    let back = max_int(max_int(base - 2, min), 1);
    lemma_back_search_bounds(zh, base, back);
    lemma_fwd_search_bounds(zh, base + 1, min_int(base + 8, total));
}

proof fn lemma_back_search_exact(zh: Seq<char>, p: int, lo: int)
    requires
        lo >= 1,
    ensures
        match back_search(zh, p, lo) {
            Some(q) => lo <= q <= p && is_strong_punct(zh[q - 1]) && forall|k: int| q < k <= p ==> !is_strong_punct(#[trigger] zh[k - 1]),
            None => forall|k: int| lo <= k <= p ==> !is_strong_punct(#[trigger] zh[k - 1]),
        },
    decreases p - lo + 1,
{
    if !(p < lo || p < 1) && !is_strong_punct(zh[p - 1]) {
        lemma_back_search_exact(zh, p - 1, lo);
    }
}

proof fn lemma_fwd_search_exact(zh: Seq<char>, p: int, hi: int)
    requires
        p >= 1,
    ensures
        match fwd_search(zh, p, hi) {
            Some(q) => p <= q <= hi && is_strong_punct(zh[q - 1]) && forall|k: int| p <= k < q ==> !is_strong_punct(#[trigger] zh[k - 1]),
            None => forall|k: int| p <= k <= hi ==> !is_strong_punct(#[trigger] zh[k - 1]),
        },
    decreases hi - p + 1,
{
    if !(p > hi || p < 1) && !is_strong_punct(zh[p - 1]) {
        lemma_fwd_search_exact(zh, p + 1, hi);
    }
}

/// Where a cut is snapped. The cut is first clamped to `min..=total`; on a
/// bound it stays. Inside, it moves just after sentence punctuation
/// (`。！？!?；;`): to the last such position among the two before it and
/// itself (never below `min` or 1); failing that, to the first such position
/// among the eight after it (never past `total`); failing both, it stays.
pub proof fn lemma_snap_target(zh: Seq<char>, cut: int, min: int, total: int)
    requires
        0 <= min <= total,
    ensures
        ({
            let base = if cut < min { min } else if cut > total { total } else { cut };
            let lo = if base - 2 >= min && base - 2 >= 1 { base - 2 } else if min >= 1 { min } else { 1 };
            let hi = if base + 8 <= total { base + 8 } else { total };
            let r = snap_spec(zh, cut, min, total);
            &&& (base == min || base == total) ==> r == base
            &&& (min < base < total && exists|p: int| lo <= p <= base && (#[trigger] zh[p - 1] == '。' || zh[p - 1] == '！' || zh[p - 1] == '？' || zh[p - 1] == '!' || zh[p - 1] == '?' || zh[p - 1] == '；' || zh[p - 1] == ';')) ==> {
                &&& lo <= r <= base
                &&& (zh[r - 1] == '。' || zh[r - 1] == '！' || zh[r - 1] == '？' || zh[r - 1] == '!' || zh[r - 1] == '?' || zh[r - 1] == '；' || zh[r - 1] == ';')
                &&& forall|q: int| r < q <= base ==> !(#[trigger] zh[q - 1] == '。' || zh[q - 1] == '！' || zh[q - 1] == '？' || zh[q - 1] == '!' || zh[q - 1] == '?' || zh[q - 1] == '；' || zh[q - 1] == ';')
            }
            &&& (min < base < total && (forall|p: int| lo <= p <= base ==> !(#[trigger] zh[p - 1] == '。' || zh[p - 1] == '！' || zh[p - 1] == '？' || zh[p - 1] == '!' || zh[p - 1] == '?' || zh[p - 1] == '；' || zh[p - 1] == ';'))
                && exists|p: int| base < p <= hi && (#[trigger] zh[p - 1] == '。' || zh[p - 1] == '！' || zh[p - 1] == '？' || zh[p - 1] == '!' || zh[p - 1] == '?' || zh[p - 1] == '；' || zh[p - 1] == ';')) ==> {
                &&& base < r <= hi
                &&& (zh[r - 1] == '。' || zh[r - 1] == '！' || zh[r - 1] == '？' || zh[r - 1] == '!' || zh[r - 1] == '?' || zh[r - 1] == '；' || zh[r - 1] == ';')
                &&& forall|q: int| base < q < r ==> !(#[trigger] zh[q - 1] == '。' || zh[q - 1] == '！' || zh[q - 1] == '？' || zh[q - 1] == '!' || zh[q - 1] == '?' || zh[q - 1] == '；' || zh[q - 1] == ';')
            }
            &&& (min < base < total && (forall|p: int| lo <= p <= hi ==> !(#[trigger] zh[p - 1] == '。' || zh[p - 1] == '！' || zh[p - 1] == '？' || zh[p - 1] == '!' || zh[p - 1] == '?' || zh[p - 1] == '；' || zh[p - 1] == ';'))) ==> r == base
        }),
{
    let base = clamp_int(cut, min, total);
    let lo = max_int(max_int(base - 2, min), 1);
    let hi = min_int(base + 8, total);
    lemma_back_search_exact(zh, base, lo);
    lemma_fwd_search_exact(zh, base + 1, hi);
}

fn is_strong_exec(c: char) -> (r: bool)
    ensures
        r == is_strong_punct(c),
{
    c == '。' || c == '！' || c == '？' || c == '!' || c == '?' || c == '；' || c == ';'
}

fn snap_vec(zh: &Vec<char>, cut: usize, min: usize, total: usize) -> (r: usize)
    requires
        min <= total <= zh.len(),
    ensures
        r as int == snap_spec(zh@, cut as int, min as int, total as int),
{
    let base: usize = if cut < min {
        min
    } else if cut > total {
        total
    } else {
        cut
    };
    if base == min || base == total {
        return base;
    }
    let b2: usize = if base >= 2 { base - 2 } else { 0 };
    let b3: usize = if b2 >= min { b2 } else { min };
    let back: usize = if b3 >= 1 { b3 } else { 1 };
    assert(base as int == clamp_int(cut as int, min as int, total as int));
    assert(back as int == max_int(max_int(base - 2, min as int), 1));
    let mut p: usize = base;
    while p >= back
        invariant
            back >= 1,
            min < base,
            base as int == clamp_int(cut as int, min as int, total as int),
            back as int == max_int(max_int(base - 2, min as int), 1),
            p <= base < total <= zh.len(),
            back_search(zh@, base as int, back as int) == back_search(zh@, p as int, back as int),
        decreases p,
    {
        if is_strong_exec(zh[p - 1]) {
            assert(back_search(zh@, p as int, back as int) == Some(p as int));
            return p;
        }
        p -= 1;
    }
    let limit: usize = if total - base >= 8 { base + 8 } else { total };
    assert(limit as int == min_int(base + 8, total as int));
    let mut q: usize = base + 1;
    assert(base + 1 <= limit);
    loop
        invariant
            base + 1 <= q <= limit,
            min < base,
            limit as int == min_int(base + 8, total as int),
            base as int == clamp_int(cut as int, min as int, total as int),
            back as int == max_int(max_int(base - 2, min as int), 1),
            limit <= total <= zh.len(),
            back_search(zh@, base as int, back as int) is None,
            fwd_search(zh@, base + 1, limit as int) == fwd_search(zh@, q as int, limit as int),
        decreases limit - q,
    {
        if is_strong_exec(zh[q - 1]) {
            assert(fwd_search(zh@, q as int, limit as int) == Some(q as int));
            return q;
        }
        if q == limit {
            assert(fwd_search(zh@, q + 1, limit as int) is None);
            return base;
        }
        q += 1;
    }
}

/// Moves a cut point in a translation to a nearby sentence boundary: see
/// `snap_spec`; `total` is the number of characters to share out.
pub fn snap_zh_boundary(zh: &str, cut: usize, min: usize, total: usize) -> (r: usize)
    requires
        min <= total <= zh@.len(),
    ensures
        r as int == snap_spec(zh@, cut as int, min as int, total as int),
{
    let v = chars_of(zh);
    snap_vec(&v, cut, min, total)
}

/// A sentence as stored: id, time span and the captions it spans.
#[derive(Debug, Clone, Copy)]
pub struct SentSpan {
    pub id: i64,
    pub start_ms: u64,
    pub end_ms: u64,
    pub cue_from: i64,
    pub cue_to: i64,
}

/// A translated caption: index, time span and Chinese text.
#[derive(Debug, Clone)]
pub struct CueZh {
    pub idx: i64,
    pub start_ms: u64,
    pub end_ms: u64,
    pub text_zh: String,
}

pub type CueZhModel = (i64, u64, u64, Seq<char>);

pub open spec fn cue_zh_model(c: CueZh) -> CueZhModel {
    (c.idx, c.start_ms, c.end_ms, c.text_zh@)
}

pub open spec fn cue_zh_models(v: Seq<CueZh>) -> Seq<CueZhModel> {
    v.map_values(|c: CueZh| cue_zh_model(c))
}

/// `round(total * overlap / dur)` for non-negative values, `dur > 0`.
pub open spec fn round_share(total: int, ov: int, dur: int) -> int {
    (2 * total * ov + dur) / (2 * dur)
}

/// Where sentence `s` stops taking from caption `c`, whose first `cur` of
/// `total` characters are already taken: everything when the sentence ends
/// within 10 ms of the caption's end or later; otherwise the share of the
/// caption's time that the sentence covers, rounded, then snapped to
/// punctuation.
pub open spec fn cut_point(s: SentSpan, c: CueZhModel, cur: int, total: int) -> int {
    if s.end_ms + 10 >= c.2 {
        total
    } else {
        let dur = max_int(c.2 - c.1, 10);
        let ov = max_int(min_int(s.end_ms as int, c.2 as int) - max_int(s.start_ms as int, c.1 as int), 0);
        snap_spec(c.3, cur + round_share(total, ov, dur), cur, total)
    }
}

/// How many characters of the caption with this index are taken already.
pub open spec fn cursor(m: Map<i64, int>, k: i64) -> int {
    if m.dom().contains(k) {
        m[k]
    } else {
        0
    }
}

/// Sentence `s` takes its piece of caption `c` (if `c` lies in its caption
/// range and has characters left).
pub open spec fn take_from_cue(s: SentSpan, c: CueZhModel, st: (Seq<char>, Map<i64, int>)) -> (Seq<char>, Map<i64, int>) {
    if !(s.cue_from <= c.0 && c.0 <= s.cue_to) {
        st
    } else {
        let total = c.3.len() as int;
        let cur = cursor(st.1, c.0);
        if cur >= total {
            st
        } else {
            let cut = cut_point(s, c, cur, total);
            (st.0 + c.3.subrange(cur, cut), st.1.insert(c.0, cut))
        }
    }
}

pub open spec fn take_from_cues(s: SentSpan, cues: Seq<CueZhModel>, m: int, st: (Seq<char>, Map<i64, int>)) -> (Seq<char>, Map<i64, int>)
    decreases m,
{
    if m <= 0 {
        st
    } else {
        take_from_cue(s, cues[m - 1], take_from_cues(s, cues, m - 1, st))
    }
}

/// The translations given to the first `n` sentences, and the cursors.
pub open spec fn assign_state(sents: Seq<SentSpan>, cues: Seq<CueZhModel>, n: int) -> (Seq<(i64, Seq<char>)>, Map<i64, int>)
    decreases n,
{
    if n <= 0 {
        (Seq::empty(), Map::empty())
    } else {
        let (out, m) = assign_state(sents, cues, n - 1);
        let (zh, m2) = take_from_cues(sents[n - 1], cues, cues.len() as int, (Seq::empty(), m));
        let t = trim(zh);
        (if t.len() > 0 { out.push((sents[n - 1].id, t)) } else { out }, m2)
    }
}

/// Sentence-level Chinese: sentences often end inside a caption, so a
/// caption's translation is shared among the sentences that overlap it, in
/// sentence order, each taking the next part (a cursor per caption index
/// makes the parts complementary); a sentence with nothing left gets no row.
pub open spec fn assign_sentence_zh_spec(sents: Seq<SentSpan>, cues: Seq<CueZhModel>) -> Seq<(i64, Seq<char>)> {
    assign_state(sents, cues, sents.len() as int).0
}

/// Where the taken part of caption `k` ends, as the map of cursors holds
/// it (0 when the caption was not reached yet).
pub open spec fn map_cursor(hm: Map<i64, usize>, k: i64) -> int {
    if hm.contains_key(k) {
        hm[k] as int
    } else {
        0
    }
}

fn cursor_lookup(cursors: &HashMap<i64, usize>, k: i64) -> (r: usize)
    ensures
        r as int == map_cursor(cursors@, k),
{
    broadcast use vstd::std_specs::hash::group_hash_axioms;
    match cursors.get(&k) {
        Some(v) => *v,
        None => 0,
    }
}

pub open spec fn pair_models(v: Seq<(i64, String)>) -> Seq<(i64, Seq<char>)> {
    v.map_values(|p: (i64, String)| (p.0, p.1@))
}

/// The share of caption `c` a sentence takes, as a cut point.
fn cut_point_exec(s: &SentSpan, c: &CueZh, zh: &Vec<char>, cur: usize, total: usize) -> (r: usize)
    requires
        zh@ == c.text_zh@,
        total == zh.len(),
        cur < total,
    ensures
        r as int == cut_point(*s, cue_zh_model(*c), cur as int, total as int),
        cur <= r <= total,
{
    if s.end_ms as u128 + 10 >= c.end_ms as u128 {
        return total;
    }
    let dur: u64 = if c.end_ms > c.start_ms && c.end_ms - c.start_ms > 10 {
        c.end_ms - c.start_ms
    } else {
        10
    };
    let hi: u64 = if s.end_ms < c.end_ms { s.end_ms } else { c.end_ms };
    let lo: u64 = if s.start_ms > c.start_ms { s.start_ms } else { c.start_ms };
    let ov: u64 = if hi > lo { hi - lo } else { 0 };
    proof {
        vstd::arithmetic::mul::lemma_mul_upper_bound(
            total as int, u64::MAX as int, ov as int, u64::MAX as int);
    }
    let prod: u128 = total as u128 * ov as u128;
    let q: u128 = prod / dur as u128;
    let rem: u128 = prod % dur as u128;
    let share: u128 = if 2 * rem >= dur as u128 { q + 1 } else { q };
    proof {
        lemma_round_share(total as int, ov as int, dur as int, prod as int, q as int, rem as int);
    }
    let fair: usize = if share >= (total - cur) as u128 { total } else { cur + share as usize };
    let r = snap_vec(zh, fair, cur, total);
    proof {
        lemma_snap_bounds(zh@, cur + share, cur as int, total as int);
        lemma_snap_clamped(zh@, cur + share, fair as int, cur as int, total as int);
    }
    r
}

proof fn lemma_round_share(total: int, ov: int, dur: int, prod: int, q: int, rem: int)
    requires
        total >= 0,
        ov >= 0,
        dur > 0,
        prod == total * ov,
        q == prod / dur,
        rem == prod % dur,
    ensures
        round_share(total, ov, dur) == if 2 * rem >= dur { q + 1 } else { q },
{
    vstd::arithmetic::div_mod::lemma_fundamental_div_mod(prod, dur);
    assert(0 <= rem < dur) by {
        vstd::arithmetic::div_mod::lemma_mod_bound(prod, dur);
    }
    let num = 2 * total * ov + dur;
    assert(num == (2 * q) * dur + (2 * rem + dur)) by (nonlinear_arith)
        requires
            prod == total * ov,
            prod == dur * q + rem,
            num == 2 * total * ov + dur,
    ;
    if 2 * rem >= dur {
        assert(num == (q + 1) * (2 * dur) + (2 * rem - dur)) by (nonlinear_arith)
            requires
                num == (2 * q) * dur + (2 * rem + dur),
        ;
        vstd::arithmetic::div_mod::lemma_fundamental_div_mod_converse(num, 2 * dur, q + 1, 2 * rem - dur);
    } else {
        assert(num == (2 * q) * dur + (2 * rem + dur));
        assert(num == q * (2 * dur) + (2 * rem + dur)) by (nonlinear_arith)
            requires
                num == (2 * q) * dur + (2 * rem + dur),
        ;
        vstd::arithmetic::div_mod::lemma_fundamental_div_mod_converse(num, 2 * dur, q, 2 * rem + dur);
    }
}

proof fn lemma_snap_clamped(zh: Seq<char>, cut: int, fair: int, min: int, total: int)
    requires
        min <= total,
        fair == if cut >= total { total } else { cut },
        cut >= min,
    ensures
        snap_spec(zh, cut, min, total) == snap_spec(zh, fair, min, total),
{
}

/// Shares out the captions' translations among sentences: see
/// `assign_sentence_zh_spec`.
pub fn assign_sentence_zh(sents: &Vec<SentSpan>, cues: &Vec<CueZh>) -> (r: Vec<(i64, String)>)
    ensures
        pair_models(r@) == assign_sentence_zh_spec(sents@, cue_zh_models(cues@)),
{
    let ghost cm = cue_zh_models(cues@);
    let mut cursors: HashMap<i64, usize> = HashMap::new();
    let ghost mut m: Map<i64, int> = Map::empty();
    let mut out: Vec<(i64, String)> = Vec::new();
    let mut si: usize = 0;
    while si < sents.len()
        invariant
            si <= sents.len(),
            cm == cue_zh_models(cues@),
            (pair_models(out@), m) == assign_state(sents@, cm, si as int),
            forall|k: i64| #[trigger] map_cursor(cursors@, k) == cursor(m, k),
        decreases sents.len() - si,
    {
        let s = &sents[si];
        let mut zh: Vec<char> = Vec::new();
        let ghost m0 = m;
        let mut ci: usize = 0;
        while ci < cues.len()
            invariant
                ci <= cues.len(),
                si < sents.len(),
                *s == sents@[si as int],
                cm == cue_zh_models(cues@),
                (zh@, m) == take_from_cues(*s, cm, ci as int, (Seq::empty(), m0)),
                forall|k: i64| #[trigger] map_cursor(cursors@, k) == cursor(m, k),
            decreases cues.len() - ci,
        {
            let c = &cues[ci];
            assert(cm[ci as int] == cue_zh_model(*c));
            if s.cue_from <= c.idx && c.idx <= s.cue_to {
                let text = chars_of(c.text_zh.as_str());
                let total = text.len();
                let cur = cursor_lookup(&cursors, c.idx);
                if cur < total {
                    let cut = cut_point_exec(s, c, &text, cur, total);
                    let piece = subvec(&text, cur, cut);
                    push_all(&mut zh, &piece);
                    let ghost c0 = cursors@;
                    let ghost mo = m;
                    proof {
                        broadcast use vstd::std_specs::hash::group_hash_axioms;
                    }
                    cursors.insert(c.idx, cut);
                    proof {
                        broadcast use vstd::std_specs::hash::group_hash_axioms;
                        m = m.insert(c.idx, cut as int);
                        assert(cursors@ == c0.insert(c.idx, cut));
                        assert forall|k: i64| #[trigger] map_cursor(cursors@, k) == cursor(m, k) by {
                            assert(map_cursor(c0, k) == cursor(mo, k));
                        }
                    }
                }
            }
            ci += 1;
        }
        let t = trim_vec(&zh);
        if t.len() > 0 {
            let ghost o0 = out@;
            let st = string_of(t.as_slice());
            out.push((s.id, st));
            assert(pair_models(out@) =~= pair_models(o0).push((s.id, t@)));
        }
        si += 1;
    }
    out
}

// ---------------------------------------------------------------------------
// The shares of one caption
// ---------------------------------------------------------------------------

/// No two captions have the same index.
pub open spec fn distinct_idx(cues: Seq<CueZhModel>) -> bool {
    forall|i: int, j: int| 0 <= i < j < cues.len() ==> cues[i].0 != cues[j].0
}

/// Sentence `s` reaches caption `c`.
pub open spec fn spans_cue(s: SentSpan, c: CueZhModel) -> bool {
    s.cue_from <= c.0 && c.0 <= s.cue_to
}

/// Where caption `c`'s taken part ends after sentence `s`, when `cur`
/// characters were taken before.
pub open spec fn cursor_after(s: SentSpan, c: CueZhModel, cur: int) -> int {
    if spans_cue(s, c) && cur < c.3.len() {
        cut_point(s, c, cur, c.3.len() as int)
    } else {
        cur
    }
}

/// The part of caption `c` that sentence `s` takes when `cur` characters
/// were taken before.
pub open spec fn piece_of(s: SentSpan, c: CueZhModel, cur: int) -> Seq<char> {
    c.3.subrange(cur, cursor_after(s, c, cur))
}

/// How much of caption `c` the first `n` sentences take.
pub open spec fn cue_cursor(sents: Seq<SentSpan>, c: CueZhModel, n: int) -> int
    decreases n,
{
    if n <= 0 {
        0
    } else {
        cursor_after(sents[n - 1], c, cue_cursor(sents, c, n - 1))
    }
}

/// The parts of caption `c` that the first `n` sentences take, in order.
pub open spec fn cue_pieces(sents: Seq<SentSpan>, c: CueZhModel, n: int) -> Seq<char>
    decreases n,
{
    if n <= 0 {
        Seq::empty()
    } else {
        cue_pieces(sents, c, n - 1) + piece_of(sents[n - 1], c, cue_cursor(sents, c, n - 1))
    }
}

proof fn lemma_cursor_after_bounds(s: SentSpan, c: CueZhModel, cur: int)
    requires
        0 <= cur <= c.3.len(),
    ensures
        cur <= cursor_after(s, c, cur) <= c.3.len(),
{
    if spans_cue(s, c) && cur < c.3.len() {
        if !(s.end_ms + 10 >= c.2) {
            let total = c.3.len() as int;
            let dur = max_int(c.2 - c.1, 10);
            let ov = max_int(min_int(s.end_ms as int, c.2 as int) - max_int(s.start_ms as int, c.1 as int), 0);
            lemma_snap_bounds(c.3, cur + round_share(total, ov, dur), cur, total);
        }
    }
}

/// The parts of a caption that successive sentences take follow each other
/// without overlap or gap: together they are the caption's text up to the
/// cursor, which never moves back and stays within the text.
pub proof fn lemma_cue_pieces_complementary(sents: Seq<SentSpan>, c: CueZhModel, n: int)
    requires
        0 <= n <= sents.len(),
    ensures
        0 <= cue_cursor(sents, c, n) <= c.3.len(),
        cue_pieces(sents, c, n) == c.3.take(cue_cursor(sents, c, n)),
        n > 0 ==> cue_cursor(sents, c, n - 1) <= cue_cursor(sents, c, n),
    decreases n,
{
    if n > 0 {
        lemma_cue_pieces_complementary(sents, c, n - 1);
        let cur = cue_cursor(sents, c, n - 1);
        lemma_cursor_after_bounds(sents[n - 1], c, cur);
        assert(c.3.take(cur) + c.3.subrange(cur, cursor_after(sents[n - 1], c, cur)) =~= c.3.take(
            cursor_after(sents[n - 1], c, cur),
        ));
    }
}

/// A sentence that reaches a caption and ends no earlier than 10 ms before
/// it takes all of the caption that is left.
pub proof fn lemma_cue_taken_to_end(sents: Seq<SentSpan>, c: CueZhModel, i: int)
    requires
        0 <= i < sents.len(),
        spans_cue(sents[i], c),
        sents[i].end_ms + 10 >= c.2,
    ensures
        cue_cursor(sents, c, i + 1) == c.3.len(),
        cue_pieces(sents, c, i + 1) == c.3,
{
    lemma_cue_pieces_complementary(sents, c, i + 1);
    lemma_cue_pieces_complementary(sents, c, i);
}

/// What taking from the first `m` captions does to one caption's cursor,
/// when the indices are distinct.
proof fn lemma_take_from_cues_cursor(s: SentSpan, cues: Seq<CueZhModel>, m: int, st: (Seq<char>, Map<i64, int>), k: int)
    requires
        distinct_idx(cues),
        0 <= m <= cues.len(),
        0 <= k < cues.len(),
    ensures
        cursor(take_from_cues(s, cues, m, st).1, cues[k].0) == if k < m {
            cursor_after(s, cues[k], cursor(st.1, cues[k].0))
        } else {
            cursor(st.1, cues[k].0)
        },
    decreases m,
{
    if m > 0 {
        lemma_take_from_cues_cursor(s, cues, m - 1, st, k);
        let prev = take_from_cues(s, cues, m - 1, st);
        let c = cues[m - 1];
        if k != m - 1 {
            assert(c.0 != cues[k].0);
        } else {
            assert(cursor(prev.1, c.0) == cursor(st.1, c.0));
        }
    }
}

/// The cursors the sharing keeps agree with each caption's own account:
/// with distinct indices, after the first `n` sentences the cursor of a
/// caption is `cue_cursor` of that caption.
pub proof fn lemma_assign_cursor(sents: Seq<SentSpan>, cues: Seq<CueZhModel>, n: int, k: int)
    requires
        distinct_idx(cues),
        0 <= n <= sents.len(),
        0 <= k < cues.len(),
    ensures
        cursor(assign_state(sents, cues, n).1, cues[k].0) == cue_cursor(sents, cues[k], n),
    decreases n,
{
    if n > 0 {
        lemma_assign_cursor(sents, cues, n - 1, k);
        let m = assign_state(sents, cues, n - 1).1;
        lemma_take_from_cues_cursor(sents[n - 1], cues, cues.len() as int, (Seq::empty(), m), k);
    }
}

/// The pieces a sentence gets from the first `m` captions, in caption order.
pub open spec fn sentence_pieces(s: SentSpan, cues: Seq<CueZhModel>, m: int, cursors: Map<i64, int>) -> Seq<char>
    decreases m,
{
    if m <= 0 {
        Seq::empty()
    } else {
        sentence_pieces(s, cues, m - 1, cursors) + piece_of(s, cues[m - 1], cursor(cursors, cues[m - 1].0))
    }
}

/// With distinct indices, a sentence's text (before trimming) is its pieces
/// of the captions it reaches, in caption order.
pub proof fn lemma_take_from_cues_text(s: SentSpan, cues: Seq<CueZhModel>, m: int, cursors: Map<i64, int>)
    requires
        distinct_idx(cues),
        0 <= m <= cues.len(),
        forall|k: int| 0 <= k < cues.len() ==> 0 <= #[trigger] cursor(cursors, cues[k].0) <= cues[k].3.len(),
    ensures
        take_from_cues(s, cues, m, (Seq::empty(), cursors)).0 == sentence_pieces(s, cues, m, cursors),
    decreases m,
{
    if m > 0 {
        lemma_take_from_cues_text(s, cues, m - 1, cursors);
        let c = cues[m - 1];
        lemma_take_from_cues_cursor(s, cues, m - 1, (Seq::empty(), cursors), m - 1);
        let cur = cursor(cursors, c.0);
        lemma_cursor_after_bounds(s, c, cur);
        if !(spans_cue(s, c) && cur < c.3.len()) {
            assert(piece_of(s, c, cur) =~= Seq::<char>::empty());
        }
    }
}

// ---------------------------------------------------------------------------
// Cleaning only leaves words out
// ---------------------------------------------------------------------------

/// `a` is `b` with some elements left out, in order: `idx[i]` is where
/// `a[i]` stands in `b`.
pub open spec fn subseq_at<A>(a: Seq<A>, b: Seq<A>, idx: Seq<int>) -> bool {
    &&& idx.len() == a.len()
    &&& forall|i: int| 0 <= i < idx.len() ==> 0 <= #[trigger] idx[i] < b.len() && a[i] == b[idx[i]]
    &&& forall|i: int, j: int| 0 <= i < j < idx.len() ==> idx[i] < idx[j]
}

/// `a` is a subsequence of `b`.
pub open spec fn is_subseq<A>(a: Seq<A>, b: Seq<A>) -> bool {
    exists|idx: Seq<int>| #[trigger] subseq_at(a, b, idx)
}

pub open spec fn kept_idx(ws: Seq<WordModel>, m: int) -> Seq<int>
    decreases m,
{
    if m <= 0 {
        Seq::empty()
    } else {
        let r = kept_idx(ws, m - 1);
        if keep_word(ws, m - 1) {
            r.push(m - 1)
        } else {
            r
        }
    }
}

proof fn lemma_kept_subseq(ws: Seq<WordModel>, m: int)
    requires
        0 <= m <= ws.len(),
    ensures
        subseq_at(kept_words(ws, m), ws, kept_idx(ws, m)),
        forall|i: int| 0 <= i < kept_idx(ws, m).len() ==> #[trigger] kept_idx(ws, m)[i] < m,
    decreases m,
{
    if m > 0 {
        lemma_kept_subseq(ws, m - 1);
    }
}

pub open spec fn collapse_idx(p: Seq<WordModel>, i: int, out: Seq<WordModel>, oidx: Seq<int>) -> Seq<int>
    decreases p.len() - i,
{
    if i < 0 || i >= p.len() {
        oidx
    } else {
        let n = repeat_len(p, out, i);
        if n > 0 {
            collapse_idx(p, i + n, out, oidx)
        } else {
            collapse_idx(p, i + 1, out.push(p[i]), oidx.push(i))
        }
    }
}

proof fn lemma_collapse_subseq(p: Seq<WordModel>, i: int, out: Seq<WordModel>, oidx: Seq<int>)
    requires
        0 <= i,
        subseq_at(out, p, oidx),
        forall|k: int| 0 <= k < oidx.len() ==> #[trigger] oidx[k] < i,
    ensures
        subseq_at(collapse(p, i, out), p, collapse_idx(p, i, out, oidx)),
    decreases p.len() - i,
{
    if i < p.len() {
        let n = repeat_len(p, out, i);
        if n > 0 {
            lemma_collapse_subseq(p, i + n, out, oidx);
        } else {
            let o2 = out.push(p[i]);
            let x2 = oidx.push(i);
            assert(subseq_at(o2, p, x2));
            lemma_collapse_subseq(p, i + 1, o2, x2);
        }
    }
}

proof fn lemma_subseq_trans<A>(a: Seq<A>, b: Seq<A>, c: Seq<A>, i1: Seq<int>, i2: Seq<int>)
    requires
        subseq_at(a, b, i1),
        subseq_at(b, c, i2),
    ensures
        subseq_at(a, c, Seq::new(a.len(), |k: int| i2[i1[k]])),
{
    let i3 = Seq::new(a.len(), |k: int| i2[i1[k]]);
    assert forall|k: int| 0 <= k < i3.len() implies 0 <= #[trigger] i3[k] < c.len() && a[k] == c[i3[k]] by {
        assert(0 <= i1[k] < b.len());
    }
    assert forall|x: int, y: int| 0 <= x < y < i3.len() implies i3[x] < i3[y] by {
        assert(i1[x] < i1[y]);
        assert(0 <= i1[y] < b.len());
    }
}

/// Cleaning the word stream only leaves words out: what is left is the
/// input words, in their order, each with its own time and caption.
pub proof fn lemma_clean_word_stream_subseq(ws: Seq<WordModel>)
    ensures
        is_subseq(clean_word_stream_spec(ws), ws),
{
    let p = kept_words(ws, ws.len() as int);
    let pi = kept_idx(ws, ws.len() as int);
    lemma_kept_subseq(ws, ws.len() as int);
    let e: Seq<WordModel> = Seq::empty();
    let ei: Seq<int> = Seq::empty();
    assert(subseq_at(e, p, ei));
    lemma_collapse_subseq(p, 0, e, ei);
    let ci = collapse_idx(p, 0, e, ei);
    lemma_subseq_trans(clean_word_stream_spec(ws), p, ws, ci, pi);
    let wit = Seq::new(clean_word_stream_spec(ws).len(), |k: int| pi[ci[k]]);
    assert(subseq_at(clean_word_stream_spec(ws), ws, wit));
}

/// No word of `s` is a hesitation sound.
pub open spec fn no_filler_words(s: Seq<WordModel>) -> bool {
    forall|i: int| 0 <= i < s.len() ==> !is_filler_word(norm_word_spec(#[trigger] s[i].0))
}

/// No word of `s` repeats the word just before it (ASCII case aside).
pub open spec fn no_adjacent_repeat(s: Seq<WordModel>) -> bool {
    forall|i: int| 0 < i < s.len() ==> !eq_ignore_ascii_case(#[trigger] s[i].0, s[i - 1].0)
}

proof fn lemma_kept_no_fillers(ws: Seq<WordModel>, m: int)
    requires
        0 <= m <= ws.len(),
    ensures
        no_filler_words(kept_words(ws, m)),
    decreases m,
{
    if m > 0 {
        lemma_kept_no_fillers(ws, m - 1);
        let r = kept_words(ws, m - 1);
        if keep_word(ws, m - 1) {
            let r2 = r.push(ws[m - 1]);
            assert forall|i: int| 0 <= i < r2.len() implies !is_filler_word(norm_word_spec(#[trigger] r2[i].0)) by {
                if i < r.len() {
                    assert(r2[i] == r[i]);
                }
            }
        }
    }
}

proof fn lemma_collapse_clean(p: Seq<WordModel>, i: int, out: Seq<WordModel>)
    requires
        0 <= i,
        no_filler_words(p),
        no_filler_words(out),
        no_adjacent_repeat(out),
    ensures
        no_filler_words(collapse(p, i, out)),
        no_adjacent_repeat(collapse(p, i, out)),
    decreases p.len() - i,
{
    if i < p.len() {
        let n = repeat_len(p, out, i);
        if n > 0 {
            lemma_collapse_clean(p, i + n, out);
        } else {
            let o2 = out.push(p[i]);
            assert(!repeat_at(p, out, i, 1));
            if out.len() >= 1 {
                assert(!eq_ignore_ascii_case(p[i + 0].0, out[out.len() - 1 + 0].0));
            }
            assert forall|j: int| 0 <= j < o2.len() implies !is_filler_word(norm_word_spec(#[trigger] o2[j].0)) by {
                if j < out.len() {
                    assert(o2[j] == out[j]);
                }
            }
            assert forall|j: int| 0 < j < o2.len() implies !eq_ignore_ascii_case(#[trigger] o2[j].0, o2[j - 1].0) by {
                assert(o2[j - 1] == out[j - 1]);
                if j < out.len() {
                    assert(o2[j] == out[j]);
                }
            }
            lemma_collapse_clean(p, i + 1, o2);
        }
    }
}

/// After cleaning, no hesitation sound is left, and no word repeats the
/// word just before it (ASCII case aside).
pub proof fn lemma_clean_word_stream_clean(ws: Seq<WordModel>)
    ensures
        no_filler_words(clean_word_stream_spec(ws)),
        no_adjacent_repeat(clean_word_stream_spec(ws)),
{
    lemma_kept_no_fillers(ws, ws.len() as int);
    lemma_collapse_clean(kept_words(ws, ws.len() as int), 0, Seq::empty());
}

// ---------------------------------------------------------------------------
// Every word lands in one sentence
// ---------------------------------------------------------------------------

/// The word groups of the sentences cut so far, and the words not yet in a
/// sentence (as `sentence_state` goes).
pub open spec fn sentence_groups_state(ws: Seq<WordModel>) -> (Seq<Seq<WordModel>>, Seq<WordModel>)
    decreases ws.len(),
{
    if ws.len() == 0 {
        (Seq::empty(), Seq::empty())
    } else {
        let (out, buf) = sentence_groups_state(ws.drop_last());
        let b = buf.push(ws.last());
        if is_sentence_end_spec(ws.last().0) {
            (out.push(b), Seq::empty())
        } else {
            (out, b)
        }
    }
}

/// The word groups of the sentences of a stream.
pub open spec fn sentence_groups(ws: Seq<WordModel>) -> Seq<Seq<WordModel>> {
    let (out, buf) = sentence_groups_state(ws);
    if buf.len() > 0 {
        out.push(buf)
    } else {
        out
    }
}

/// The groups one after another.
pub open spec fn flatten_groups(gs: Seq<Seq<WordModel>>) -> Seq<WordModel>
    decreases gs.len(),
{
    if gs.len() == 0 {
        Seq::empty()
    } else {
        flatten_groups(gs.drop_last()) + gs.last()
    }
}

proof fn lemma_groups_state(ws: Seq<WordModel>)
    ensures
        ({
            let (out, buf) = sentence_groups_state(ws);
            &&& flatten_groups(out) + buf == ws
            &&& forall|j: int| 0 <= j < out.len() ==> #[trigger] out[j].len() > 0 && is_sentence_end_spec(out[j].last().0)
            &&& sentence_state(ws).0 == out.map_values(|g: Seq<WordModel>| sentence_of(g))
            &&& sentence_state(ws).1 == buf
            &&& (buf.len() > 0 ==> !is_sentence_end_spec(buf.last().0))
        }),
    decreases ws.len(),
{
    if ws.len() > 0 {
        lemma_groups_state(ws.drop_last());
        let (out, buf) = sentence_groups_state(ws.drop_last());
        let b = buf.push(ws.last());
        assert(ws == ws.drop_last().push(ws.last()));
        if is_sentence_end_spec(ws.last().0) {
            let o2 = out.push(b);
            assert(o2.drop_last() =~= out);
            assert(flatten_groups(o2) == flatten_groups(out) + b);
            assert(flatten_groups(o2) + Seq::<WordModel>::empty() =~= ws);
            assert forall|j: int| 0 <= j < o2.len() implies #[trigger] o2[j].len() > 0 && is_sentence_end_spec(o2[j].last().0) by {
                if j < out.len() {
                    assert(o2[j] == out[j]);
                }
            }
            assert(o2.map_values(|g: Seq<WordModel>| sentence_of(g)) =~= out.map_values(|g: Seq<WordModel>| sentence_of(g)).push(sentence_of(b)));
        } else {
            assert(flatten_groups(out) + b =~= ws);
        }
    }
}

/// Each sentence spans its word group: it starts when the group's first
/// word starts and ends when its last word ends, covers the captions from
/// the first word's to the last word's, and reads as the words joined by
/// single spaces.
pub proof fn lemma_sentence_spans(ws: Seq<WordModel>)
    ensures
        split_sentences_from_stream_spec(ws).len() == sentence_groups(ws).len(),
        forall|j: int|
            0 <= j < sentence_groups(ws).len() ==> {
                let g = #[trigger] sentence_groups(ws)[j];
                let s = split_sentences_from_stream_spec(ws)[j];
                &&& g.len() > 0
                &&& s.1 == g[0].1
                &&& s.2 == g[g.len() - 1].2
                &&& s.3 == g[0].3
                &&& s.4 == g[g.len() - 1].3
                &&& s.0 == join(g.map_values(|w: WordModel| w.0), " "@)
            },
{
    lemma_sentences_cover_stream(ws);
}

/// Cutting a word stream into sentences keeps every word, once and in
/// order: the sentences' word groups, one after another, are the stream;
/// every group is non-empty and each but the last ends with a word that
/// ends a sentence; each sentence is made of its group.
pub proof fn lemma_sentences_cover_stream(ws: Seq<WordModel>)
    ensures
        flatten_groups(sentence_groups(ws)) == ws,
        forall|j: int| 0 <= j < sentence_groups(ws).len() ==> #[trigger] sentence_groups(ws)[j].len() > 0,
        forall|j: int|
            0 <= j < sentence_groups(ws).len() - 1 ==> is_sentence_end_spec(#[trigger] sentence_groups(ws)[j].last().0),
        split_sentences_from_stream_spec(ws) == sentence_groups(ws).map_values(|g: Seq<WordModel>| sentence_of(g)),
{
    lemma_groups_state(ws);
    let (out, buf) = sentence_groups_state(ws);
    let gs = sentence_groups(ws);
    if buf.len() > 0 {
        assert(gs.drop_last() =~= out);
        assert(flatten_groups(gs) == flatten_groups(out) + buf);
        assert forall|j: int| 0 <= j < gs.len() implies #[trigger] gs[j].len() > 0 by {
            if j < out.len() {
                assert(gs[j] == out[j]);
            }
        }
        assert forall|j: int| 0 <= j < gs.len() - 1 implies is_sentence_end_spec(#[trigger] gs[j].last().0) by {
            assert(gs[j] == out[j]);
        }
        assert(gs.map_values(|g: Seq<WordModel>| sentence_of(g)) =~= out.map_values(|g: Seq<WordModel>| sentence_of(g)).push(sentence_of(buf)));
    } else {
        assert(flatten_groups(out) + buf =~= flatten_groups(out));
    }
}

} // verus!
