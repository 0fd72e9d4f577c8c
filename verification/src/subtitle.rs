//! WebVTT / SRT captions parsed into a normalised list of cues.
//!
//! Times are kept as whole milliseconds. A time stamp is `[hh:]mm:ss[.fff]`
//! (a comma may stand for the decimal point); each part is a plain decimal
//! number, and each part's milliseconds are rounded down.

use vstd::prelude::*;
use crate::decimal::{float_text_scaled, float_text_scaled_exec};
use crate::text::{
    chars_eq, chars_of, find, find_exec, in_run, is_word_char, lines, lines_of, lower, runs,
    runs_exec, split_at_char, split_char_exec, string_of, subvec, to_lower, trim, trim_vec, vv,
    lemma_vv_push, is_alphanumeric, RunKind, lemma_find_bounds, trim_start, trim_end, is_ws, runs_state,
};

verus! {

/// One caption: its time span in milliseconds and its text.
#[derive(Debug, Clone, PartialEq, Eq)]
pub struct ParsedCue {
    pub start_ms: u64,
    pub end_ms: u64,
    pub text: String,
}

/// A caption as values: start, end and text.
pub type CueModel = (u64, u64, Seq<char>);

impl View for ParsedCue {
    type V = CueModel;

    open spec fn view(&self) -> CueModel {
        (self.start_ms, self.end_ms, self.text@)
    }
}

/// A caption whose text is still a vector of characters.
pub struct RawCue {
    pub start_ms: u64,
    pub end_ms: u64,
    pub text: Vec<char>,
}

pub open spec fn raw_model(c: RawCue) -> CueModel {
    (c.start_ms, c.end_ms, c.text@)
}

pub open spec fn raw_models(v: Seq<RawCue>) -> Seq<CueModel> {
    v.map_values(|c: RawCue| raw_model(c))
}

pub open spec fn cue_models(v: Seq<ParsedCue>) -> Seq<CueModel> {
    v.map_values(|c: ParsedCue| c@)
}

// ---------------------------------------------------------------------------
// Time stamps
// ---------------------------------------------------------------------------

pub open spec fn comma_to_dot(s: Seq<char>) -> Seq<char> {
    s.map_values(|c: char| if c == ',' { '.' } else { c })
}

/// The milliseconds of one part of a time stamp: `floor(value * factor)`,
/// the part read as Rust reads a float (optional `+`, decimal digits with at
/// most one point, optional exponent; see `float_text_scaled`).
pub open spec fn part_ms(p: Seq<char>, factor: nat) -> Option<nat> {
    float_text_scaled(p, factor)
}

/// A time stamp `[h:]m:s` in milliseconds, each part floored to whole
/// milliseconds; `None` when it has fewer than two or more than three
/// `:`-separated parts, a part is not a non-negative finite number (a sign
/// `-`, `inf` and `nan` are refused, as is a mantissa whose digits exceed a
/// `u64`), or the total does not fit in a `u64`.
pub open spec fn parse_ts_spec(s: Seq<char>) -> Option<u64> {
    let parts = split_at_char(comma_to_dot(s), ':');
    let n = parts.len() as int;
    if n < 2 || n > 3 {
        None
    } else {
        let secs = part_ms(parts[n - 1], 1000);
        let mins = part_ms(parts[n - 2], 60000);
        let hours = if n == 3 { part_ms(parts[0], 3600000) } else { Some(0nat) };
        match (secs, mins, hours) {
            (Some(s), Some(m), Some(h)) => if h + m + s <= u64::MAX {
                Some((h + m + s) as u64)
            } else {
                None
            },
            _ => None,
        }
    }
}

pub open spec fn arrow() -> Seq<char> {
    seq!['-', '-', '>']
}

/// A time line `start --> end [settings]`: the start is everything before
/// the first `-->` (trimmed), the end is the first white-space separated
/// token after it.
pub open spec fn parse_timestamp_line_spec(line: Seq<char>) -> Option<(u64, u64)> {
    match find(line, arrow()) {
        None => None,
        Some(i) => {
            let toks = runs(line.skip(i + 3), RunKind::NotSpace);
            if toks.len() == 0 {
                None
            } else {
                match (parse_ts_spec(trim(line.take(i))), parse_ts_spec(toks[0])) {
                    (Some(a), Some(b)) => Some((a, b)),
                    _ => None,
                }
            }
        }
    }
}

fn part_ms_exec(p: &Vec<char>, factor: u64) -> (r: Option<u64>)
    requires
        factor >= 1,
    ensures
        match r {
            Some(v) => part_ms(p@, factor as nat) == Some(v as nat),
            None => part_ms(p@, factor as nat) is None || part_ms(p@, factor as nat).unwrap()
                > u64::MAX,
        },
{
    float_text_scaled_exec(p, factor)
}

/// Reads a time stamp: see `parse_ts_spec`.
pub fn parse_ts(s: &Vec<char>) -> (r: Option<u64>)
    ensures
        r == parse_ts_spec(s@),
{
    let mut t: Vec<char> = Vec::new();
    let mut i: usize = 0;
    while i < s.len()
        invariant
            i <= s.len(),
            t@ == comma_to_dot(s@.take(i as int)),
        decreases s.len() - i,
    {
        let c = s[i];
        t.push(if c == ',' { '.' } else { c });
        assert(comma_to_dot(s@.take(i + 1)) =~= comma_to_dot(s@.take(i as int)).push(
            if c == ',' { '.' } else { c },
        ));
        i += 1;
    }
    assert(s@.take(s.len() as int) == s@);
    let parts = split_char_exec(&t, ':');
    let n = parts.len();
    if n < 2 || n > 3 {
        return None;
    }
    assert(vv(parts@)[n - 1] == parts@[n - 1]@);
    assert(vv(parts@)[n - 2] == parts@[n - 2]@);
    assert(vv(parts@)[0] == parts@[0]@);
    let secs = part_ms_exec(&parts[n - 1], 1000);
    let mins = part_ms_exec(&parts[n - 2], 60000);
    let hours = if n == 3 {
        part_ms_exec(&parts[0], 3600000)
    } else {
        Some(0)
    };
    match (secs, mins, hours) {
        (Some(sv), Some(mv), Some(hv)) => {
            let total: u128 = sv as u128 + mv as u128 + hv as u128;
            if total > u64::MAX as u128 {
                None
            } else {
                Some(total as u64)
            }
        },
        _ => None,
    }
}

/// Reads a time line: see `parse_timestamp_line_spec`.
pub fn parse_timestamp_line(line: &Vec<char>) -> (r: Option<(u64, u64)>)
    ensures
        r == parse_timestamp_line_spec(line@),
{
    let arrow_v: Vec<char> = vec!['-', '-', '>'];
    assert(arrow_v@ == arrow());
    match find_exec(line, &arrow_v) {
        None => None,
        Some(i) => {
            assert(i + 3 <= line.len()) by {
                lemma_find_bounds(line@, arrow(), 0);
            }
            let left = subvec(line, 0, i);
            let right = subvec(line, i + 3, line.len());
            assert(left@ == line@.take(i as int));
            assert(right@ == line@.skip(i + 3));
            let toks = runs_exec(&right, RunKind::NotSpace);
            if toks.len() == 0 {
                return None;
            }
            assert(vv(toks@)[0] == toks@[0]@);
            let left_t = trim_vec(&left);
            let a = parse_ts(&left_t);
            let b = parse_ts(&toks[0]);
            match (a, b) {
                (Some(a), Some(b)) => Some((a, b)),
                _ => None,
            }
        },
    }
}

// ---------------------------------------------------------------------------
// Inline tags
// ---------------------------------------------------------------------------

/// Output so far and whether a tag is open.
pub open spec fn strip_tags_state(s: Seq<char>) -> (Seq<char>, bool)
    decreases s.len(),
{
    if s.len() == 0 {
        (Seq::empty(), false)
    } else {
        let (out, in_tag) = strip_tags_state(s.drop_last());
        let c = s.last();
        if c == '<' {
            (out, true)
        } else if c == '>' {
            (out, false)
        } else if !in_tag {
            (out.push(c), in_tag)
        } else {
            (out, in_tag)
        }
    }
}

/// The text with VTT inline tags (`<c>`, `<00:00:01.000>`, `<b>`, ...)
/// removed: `<` opens a tag, `>` closes one, and neither is kept.
pub open spec fn strip_tags_spec(s: Seq<char>) -> Seq<char> {
    strip_tags_state(s).0
}

pub fn strip_tags_chars(s: &Vec<char>) -> (r: Vec<char>)
    ensures
        r@ == strip_tags_spec(s@),
{
    let mut out: Vec<char> = Vec::new();
    let mut in_tag = false;
    let mut i: usize = 0;
    while i < s.len()
        invariant
            i <= s.len(),
            (out@, in_tag) == strip_tags_state(s@.take(i as int)),
        decreases s.len() - i,
    {
        assert(s@.take(i + 1).drop_last() == s@.take(i as int));
        let c = s[i];
        if c == '<' {
            in_tag = true;
        } else if c == '>' {
            in_tag = false;
        } else if !in_tag {
            out.push(c);
        }
        i += 1;
    }
    assert(s@.take(s.len() as int) == s@);
    out
}

// ---------------------------------------------------------------------------
// Cue blocks
// ---------------------------------------------------------------------------

/// Joins a caption line to the text gathered so far with one space.
pub open spec fn add_piece(acc: Seq<char>, p: Seq<char>) -> Seq<char> {
    if acc.len() == 0 {
        p
    } else {
        acc + seq![' '] + p
    }
}

/// The index of the first blank line at or after `j` (or the end).
pub open spec fn text_end(lines: Seq<Seq<char>>, j: int) -> int
    decreases lines.len() - j,
{
    if j < 0 || j >= lines.len() || trim(lines[j]).len() == 0 {
        j
    } else {
        text_end(lines, j + 1)
    }
}

/// The text of lines `j..k`: each trimmed, tags removed, joined by spaces.
pub open spec fn cue_text(lines: Seq<Seq<char>>, j: int, k: int) -> Seq<char>
    decreases k - j,
{
    if k <= j {
        Seq::empty()
    } else {
        add_piece(cue_text(lines, j, k - 1), strip_tags_spec(trim(lines[k - 1])))
    }
}

pub proof fn lemma_text_end_bounds(lines: Seq<Seq<char>>, j: int)
    ensures
        text_end(lines, j) >= j,
        0 <= j <= lines.len() ==> text_end(lines, j) <= lines.len(),
    decreases lines.len() - j,
{
    if !(j < 0 || j >= lines.len() || trim(lines[j]).len() == 0) {
        lemma_text_end_bounds(lines, j + 1);
    }
}

/// The cues of lines `i..`: a time line followed by its text lines up to a
/// blank line; a cue whose text is empty is dropped; other lines are skipped.
pub open spec fn scan(lines: Seq<Seq<char>>, i: int) -> Seq<CueModel>
    decreases lines.len() + 1 - i,
{
    if i < 0 || i >= lines.len() {
        Seq::empty()
    } else {
        match parse_timestamp_line_spec(trim(lines[i])) {
            Some((a, b)) => {
                let k = text_end(lines, i + 1);
                proof {
                    lemma_text_end_bounds(lines, i + 1);
                }
                let t = cue_text(lines, i + 1, k);
                let rest = scan(lines, k + 1);
                if t.len() > 0 {
                    seq![(a, b, t)] + rest
                } else {
                    rest
                }
            },
            None => scan(lines, i + 1),
        }
    }
}

/// The cues of a caption file before rolling repeats are removed.
pub fn scan_cues(content: &str) -> (r: Vec<RawCue>)
    ensures
        raw_models(r@) == scan(lines(content@), 0),
{
    let chars = chars_of(content);
    let ls = lines_of(&chars);
    let ghost lv = vv(ls@);
    let mut cues: Vec<RawCue> = Vec::new();
    let mut i: usize = 0;
    while i < ls.len()
        invariant
            lv == vv(ls@),
            lv == lines(chars@),
            chars@ == content@,
            lv.len() == ls.len(),
            i <= ls.len(),
            raw_models(cues@) + scan(lv, i as int) == scan(lv, 0),
        decreases ls.len() - i,
    {
        assert(lv[i as int] == ls@[i as int]@);
        let line = trim_vec(&ls[i]);
        let ghost i0 = i as int;
        match parse_timestamp_line(&line) {
            Some((a, b)) => {
                let mut text: Vec<char> = Vec::new();
                i += 1;
                proof {
                    lemma_text_end_bounds(lv, i as int);
                }
                let ghost k = text_end(lv, i as int);
                let ghost j0 = i as int;
                loop
                    invariant
                        lv == vv(ls@),
                        lv.len() == ls.len(),
                        j0 <= i <= k <= ls.len(),
                        k == text_end(lv, i as int),
                        text@ == cue_text(lv, j0, i as int),
                    ensures
                        j0 <= i <= ls.len(),
                        i as int == k,
                        text@ == cue_text(lv, j0, i as int),
                    decreases ls.len() - i,
                {
                    if i >= ls.len() {
                        break;
                    }
                    assert(lv[i as int] == ls@[i as int]@);
                    let tl = trim_vec(&ls[i]);
                    if tl.len() == 0 {
                        break;
                    }
                    proof {
                        lemma_text_end_bounds(lv, i + 1);
                    }
                    let piece = strip_tags_chars(&tl);
                    if text.len() > 0 {
                        text.push(' ');
                    }
                    crate::text::push_all(&mut text, &piece);
                    assert(text@ == add_piece(cue_text(lv, j0, i as int), piece@));
                    i += 1;
                }
                assert(i as int == k);
                if text.len() > 0 {
                    let ghost before = cues@;
                    let ghost tv = text@;
                    cues.push(RawCue { start_ms: a, end_ms: b, text });
                    assert(raw_models(cues@) =~= raw_models(before).push((a, b, tv)));
                    assert(raw_models(cues@) + scan(lv, k + 1) =~= raw_models(before) + scan(lv, i0));
                }
                if i < ls.len() {
                    i += 1;
                } else {
                    assert(scan(lv, k + 1) == scan(lv, k));
                }
            },
            None => {
                i += 1;
            },
        }
    }
    assert(scan(lv, i as int) == Seq::<CueModel>::empty());
    assert(raw_models(cues@) + Seq::<CueModel>::empty() == raw_models(cues@));
    cues
}


// ---------------------------------------------------------------------------
// Rolling repeats
// ---------------------------------------------------------------------------

/// The word tokens of a caption: runs of letters, digits and `'`, lowered.
pub open spec fn word_tokens_spec(s: Seq<char>) -> Seq<Seq<char>> {
    runs(s, RunKind::WordChar).map_values(|w: Seq<char>| lower(w))
}

/// A word begins at `i`.
pub open spec fn is_word_start(s: Seq<char>, i: int) -> bool {
    is_word_char(s[i]) && (i == 0 || !is_word_char(s[i - 1]))
}

/// The indices where words begin, in order.
pub open spec fn word_starts(s: Seq<char>) -> Seq<int>
    decreases s.len(),
{
    if s.len() == 0 {
        Seq::empty()
    } else {
        let before = word_starts(s.drop_last());
        if is_word_start(s, s.len() - 1) {
            before.push(s.len() - 1)
        } else {
            before
        }
    }
}

/// The text from the start of word `n` on (words counted from 0), with its
/// punctuation kept; empty when the text has no more than `n` words.
pub open spec fn strip_first_words_spec(s: Seq<char>, n: nat) -> Seq<char> {
    if n < word_starts(s).len() {
        s.skip(word_starts(s)[n as int])
    } else {
        Seq::empty()
    }
}

/// The first `n` words of `cur` are the last `n` words of `prev`.
pub open spec fn windows_match(prev: Seq<Seq<char>>, cur: Seq<Seq<char>>, n: int) -> bool {
    n <= prev.len() && n <= cur.len() && cur.take(n) == prev.skip(prev.len() - n)
}

pub open spec fn overlap_from(prev: Seq<Seq<char>>, cur: Seq<Seq<char>>, n: int) -> int
    decreases n,
{
    if n <= 0 {
        0
    } else if windows_match(prev, cur, n) {
        n
    } else {
        overlap_from(prev, cur, n - 1)
    }
}

/// The largest `n` with `windows_match`, or 0.
pub open spec fn overlap(prev: Seq<Seq<char>>, cur: Seq<Seq<char>>) -> int {
    overlap_from(prev, cur, if prev.len() < cur.len() { prev.len() as int } else { cur.len() as int })
}

pub open spec fn max_u64(a: u64, b: u64) -> u64 {
    if a >= b { a } else { b }
}

/// One step of rolling-repeat removal over the cues kept so far and the words
/// of the last cue that was not a full repeat.
pub open spec fn dedup_step(out: Seq<CueModel>, prev: Seq<Seq<char>>, c: CueModel) -> (Seq<CueModel>, Seq<Seq<char>>) {
    let cur = word_tokens_spec(c.2);
    let k = overlap(prev, cur);
    if k == cur.len() && cur.len() > 0 {
        if out.len() > 0 {
            let last = out.last();
            (out.update(out.len() - 1, (last.0, max_u64(last.1, c.1), last.2)), prev)
        } else {
            (out, prev)
        }
    } else {
        let t = trim(strip_first_words_spec(c.2, k as nat));
        if t.len() == 0 {
            (out, cur)
        } else {
            (out.push((c.0, c.1, t)), cur)
        }
    }
}

pub open spec fn dedup_state(cues: Seq<CueModel>) -> (Seq<CueModel>, Seq<Seq<char>>)
    decreases cues.len(),
{
    if cues.len() == 0 {
        (Seq::empty(), Seq::empty())
    } else {
        let (out, prev) = dedup_state(cues.drop_last());
        dedup_step(out, prev, cues.last())
    }
}

/// YouTube automatic captions roll: each cue repeats the end of the one
/// before. Each cue is compared with the words of the last cue that was not
/// a full repeat (a cue whose text is left empty, one without words among
/// them, still becomes that cue, and a cue without words resets the
/// comparison). The words that a cue repeats from it are dropped from its
/// start; a cue that repeats all its words is dropped and stretches the end
/// of the last cue kept instead.
pub open spec fn dedup_rolling_spec(cues: Seq<CueModel>) -> Seq<CueModel> {
    dedup_state(cues).0
}

pub fn word_tokens_chars(s: &Vec<char>) -> (r: Vec<Vec<char>>)
    ensures
        vv(r@) == word_tokens_spec(s@),
{
    let ws = runs_exec(s, RunKind::WordChar);
    let mut r: Vec<Vec<char>> = Vec::new();
    let mut i: usize = 0;
    while i < ws.len()
        invariant
            i <= ws.len(),
            vv(r@) == vv(ws@).take(i as int).map_values(|w: Seq<char>| lower(w)),
        decreases ws.len() - i,
    {
        let l = to_lower(&ws[i]);
        proof {
            lemma_vv_push(r@, l);
            assert(vv(ws@)[i as int] == ws@[i as int]@);
            assert(vv(ws@).take(i + 1).map_values(|w: Seq<char>| lower(w)) =~= vv(ws@).take(
                i as int,
            ).map_values(|w: Seq<char>| lower(w)).push(lower(ws@[i as int]@)));
        }
        r.push(l);
        i += 1;
    }
    assert(vv(ws@).take(ws.len() as int) == vv(ws@));
    r
}

proof fn lemma_word_starts_prefix(s: Seq<char>, i: int)
    requires
        0 <= i <= s.len(),
    ensures
        word_starts(s.take(i)).len() <= word_starts(s).len(),
        word_starts(s).take(word_starts(s.take(i)).len() as int) == word_starts(s.take(i)),
    decreases s.len() - i,
{
    if i == s.len() {
        assert(s.take(i) == s);
    } else {
        lemma_word_starts_prefix(s, i + 1);
        let t = s.take(i + 1);
        assert(t.drop_last() == s.take(i));
        let a = word_starts(s.take(i));
        let b = word_starts(t);
        let w = word_starts(s);
        assert(is_word_start(t, i) == is_word_start(s, i));
        assert(w.take(a.len() as int) == w.take(b.len() as int).take(a.len() as int));
        assert(b.take(a.len() as int) == a);
    }
}

/// Drops the first `n` words: see `strip_first_words_spec`.
pub fn strip_first_words_chars(s: &Vec<char>, n: usize) -> (r: Vec<char>)
    ensures
        r@ == strip_first_words_spec(s@, n as nat),
{
    let mut count: usize = 0;
    let mut in_word = false;
    let mut i: usize = 0;
    while i < s.len()
        invariant
            i <= s.len(),
            count as nat == word_starts(s@.take(i as int)).len(),
            count <= n,
            in_word == (i > 0 && is_word_char(s@[i - 1])),
        decreases s.len() - i,
    {
        let c = s[i];
        let is_word = is_alphanumeric(c) || c == '\'';
        let ghost t = s@.take(i + 1);
        assert(t.drop_last() == s@.take(i as int));
        assert(is_word_start(t, i as int) == is_word_start(s@, i as int));
        if is_word && !in_word {
            if count == n {
                proof {
                    lemma_word_starts_prefix(s@, i + 1);
                    assert(word_starts(t) == word_starts(s@.take(i as int)).push(i as int));
                    assert(word_starts(t)[n as int] == i);
                    assert(word_starts(s@)[n as int] == word_starts(t)[n as int]);
                }
                return subvec(s, i, s.len());
            }
            count += 1;
        }
        in_word = is_word;
        i += 1;
    }
    proof {
        assert(s@.take(s.len() as int) == s@);
    }
    Vec::new()
}

/// Whether the first `n` words of `cur` are the last `n` words of `prev`.
fn windows_match_exec(prev: &Vec<Vec<char>>, cur: &Vec<Vec<char>>, n: usize) -> (r: bool)
    requires
        n <= prev.len(),
        n <= cur.len(),
    ensures
        r == windows_match(vv(prev@), vv(cur@), n as int),
{
    let off = prev.len() - n;
    let ghost p = vv(prev@);
    let ghost c = vv(cur@);
    let mut j: usize = 0;
    while j < n
        invariant
            j <= n <= prev.len(),
            n <= cur.len(),
            off + n == prev.len(),
            p == vv(prev@),
            c == vv(cur@),
            forall|k: int| 0 <= k < j ==> c[k] == p[off + k],
        decreases n - j,
    {
        assert(c[j as int] == cur@[j as int]@);
        assert(p[off + j] == prev@[off + j]@);
        if !chars_eq(&cur[j], &prev[off + j]) {
            assert(c.take(n as int)[j as int] != p.skip(off as int)[j as int]);
            return false;
        }
        j += 1;
    }
    assert(c.take(n as int) =~= p.skip(off as int));
    true
}

pub fn dedup_rolling(cues: Vec<RawCue>) -> (r: Vec<RawCue>)
    ensures
        raw_models(r@) == dedup_rolling_spec(raw_models(cues@)),
{
    let ghost all = raw_models(cues@);
    let mut out: Vec<RawCue> = Vec::new();
    let mut prev: Vec<Vec<char>> = Vec::new();
    let mut i: usize = 0;
    let mut cues = cues;
    let ghost orig = cues@;
    while i < cues.len()
        invariant
            i <= cues.len(),
            cues@ == orig,
            all == raw_models(orig),
            (raw_models(out@), vv(prev@)) == dedup_state(all.take(i as int)),
        decreases cues.len() - i,
    {
        assert(all.take(i + 1).drop_last() == all.take(i as int));
        assert(all[i as int] == raw_model(cues@[i as int]));
        let c = &cues[i];
        let cur = word_tokens_chars(&c.text);
        let m = if prev.len() < cur.len() { prev.len() } else { cur.len() };
        let mut k: usize = 0;
        let mut n: usize = m;
        while n > 0
            invariant_except_break
                k == 0,
            invariant
                n <= m,
                m <= prev.len(),
                m <= cur.len(),
                overlap(vv(prev@), vv(cur@)) == overlap_from(vv(prev@), vv(cur@), n as int),
                m == if prev.len() < cur.len() { prev.len() } else { cur.len() },
            ensures
                k as int == overlap(vv(prev@), vv(cur@)),
            decreases n,
        {
            if windows_match_exec(&prev, &cur, n) {
                k = n;
                break;
            }
            n -= 1;
        }
        assert(k as int == overlap(vv(prev@), vv(cur@)));
        if k == cur.len() && cur.len() > 0 {
            if out.len() > 0 {
                let ghost before = raw_models(out@);
                let mut last = out.pop().unwrap();
                if c.end_ms > last.end_ms {
                    last.end_ms = c.end_ms;
                }
                out.push(last);
                assert(raw_models(out@) =~= before.update(
                    before.len() - 1,
                    (before.last().0, max_u64(before.last().1, c.end_ms), before.last().2),
                ));
            }
        } else {
            let stripped = strip_first_words_chars(&c.text, k);
            let t = trim_vec(&stripped);
            prev = cur;
            if t.len() > 0 {
                let ghost before = raw_models(out@);
                let ghost tv = t@;
                out.push(RawCue { start_ms: c.start_ms, end_ms: c.end_ms, text: t });
                assert(raw_models(out@) =~= before.push((c.start_ms, c.end_ms, tv)));
            }
        }
        i += 1;
    }
    assert(all.take(cues.len() as int) == all);
    out
}

/// Parses a WebVTT or SRT caption file into cues: every time line with its
/// text lines (trimmed, inline tags removed, joined by spaces) becomes a cue,
/// then rolling repeats are removed.
pub fn parse(content: &str) -> (r: Vec<ParsedCue>)
    ensures
        cue_models(r@) == parse_spec(content@),
{
    let raw = scan_cues(content);
    let cues = dedup_rolling(raw);
    let mut r: Vec<ParsedCue> = Vec::new();
    let mut i: usize = 0;
    while i < cues.len()
        invariant
            i <= cues.len(),
            cue_models(r@) == raw_models(cues@).take(i as int),
        decreases cues.len() - i,
    {
        let c = &cues[i];
        let text = string_of(c.text.as_slice());
        let ghost before = cue_models(r@);
        let ghost tv = text@;
        assert(tv == c.text@);
        r.push(ParsedCue { start_ms: c.start_ms, end_ms: c.end_ms, text });
        assert(cue_models(r@) =~= before.push((c.start_ms, c.end_ms, tv)));
        assert(raw_models(cues@).take(i + 1) =~= raw_models(cues@).take(i as int).push(
            raw_model(cues@[i as int]),
        ));
        assert(cue_models(r@) =~= raw_models(cues@).take(i + 1));
        i += 1;
    }
    assert(raw_models(cues@).take(cues.len() as int) == raw_models(cues@));
    r
}

/// The cues of a caption file: see `parse`.
pub open spec fn parse_spec(content: Seq<char>) -> Seq<CueModel> {
    dedup_rolling_spec(scan(lines(content), 0))
}

// ---------------------------------------------------------------------------
// What parsing guarantees
// ---------------------------------------------------------------------------

/// Removing tags leaves no `<` and no `>`.
pub proof fn lemma_strip_tags_no_brackets(s: Seq<char>)
    ensures
        forall|i: int|
            0 <= i < strip_tags_spec(s).len() ==> #[trigger] strip_tags_spec(s)[i] != '<' && strip_tags_spec(s)[i] != '>',
    decreases s.len(),
{
    if s.len() > 0 {
        lemma_strip_tags_no_brackets(s.drop_last());
        let (out, in_tag) = strip_tags_state(s.drop_last());
        assert(out == strip_tags_spec(s.drop_last()));
        let r = strip_tags_spec(s);
        assert forall|i: int| 0 <= i < r.len() implies #[trigger] r[i] != '<' && r[i] != '>' by {
            if i < out.len() {
                assert(r[i] == out[i]);
            }
        }
    }
}

proof fn lemma_dedup_state(cues: Seq<CueModel>)
    ensures
        dedup_state(cues).0.len() <= cues.len(),
        forall|i: int| 0 <= i < dedup_state(cues).0.len() ==> #[trigger] dedup_state(cues).0[i].2.len() > 0,
    decreases cues.len(),
{
    if cues.len() > 0 {
        lemma_dedup_state(cues.drop_last());
        let (out, prev) = dedup_state(cues.drop_last());
        let r = dedup_step(out, prev, cues.last());
        assert forall|i: int| 0 <= i < r.0.len() implies #[trigger] r.0[i].2.len() > 0 by {
            if i < out.len() {
                assert(r.0[i].2 == out[i].2);
            }
        }
    }
}

/// Removing rolling repeats never adds cues, and no cue is left without
/// text.
pub proof fn lemma_dedup_rolling_shrinks(cues: Seq<CueModel>)
    ensures
        dedup_rolling_spec(cues).len() <= cues.len(),
        forall|i: int| 0 <= i < dedup_rolling_spec(cues).len() ==> #[trigger] dedup_rolling_spec(cues)[i].2.len() > 0,
{
    lemma_dedup_state(cues);
}

// ---------------------------------------------------------------------------
// The same on strings
// ---------------------------------------------------------------------------

/// Removes VTT inline tags from a line: see `strip_tags_spec`.
pub fn strip_tags(s: &str) -> (r: String)
    ensures
        r@ == strip_tags_spec(s@),
{
    let v = chars_of(s);
    let t = strip_tags_chars(&v);
    string_of(t.as_slice())
}

/// The lower-cased words of a text, for comparing overlaps: see
/// `word_tokens_spec`.
pub fn word_tokens(s: &str) -> (r: Vec<String>)
    ensures
        r@.map_values(|w: String| w@) == word_tokens_spec(s@),
{
    let v = chars_of(s);
    let ws = word_tokens_chars(&v);
    let mut out: Vec<String> = Vec::new();
    let mut i: usize = 0;
    while i < ws.len()
        invariant
            i <= ws.len(),
            out@.map_values(|w: String| w@) == vv(ws@).take(i as int),
        decreases ws.len() - i,
    {
        let ghost o0 = out@;
        out.push(string_of(ws[i].as_slice()));
        assert(out@.map_values(|w: String| w@) =~= vv(ws@).take(i + 1)) by {
            assert(out@.map_values(|w: String| w@) =~= o0.map_values(|w: String| w@).push(ws@[i as int]@));
        }
        i += 1;
    }
    assert(vv(ws@).take(ws.len() as int) == vv(ws@));
    out
}

/// The text after its first `n` words, punctuation kept: see
/// `strip_first_words_spec`.
pub fn strip_first_words(s: &str, n: usize) -> (r: String)
    ensures
        r@ == strip_first_words_spec(s@, n as nat),
{
    let v = chars_of(s);
    let t = strip_first_words_chars(&v, n);
    string_of(t.as_slice())
}

/// A text without `<` and `>`.
pub open spec fn no_brackets(s: Seq<char>) -> bool {
    forall|i: int| 0 <= i < s.len() ==> #[trigger] s[i] != '<' && s[i] != '>'
}

proof fn lemma_cue_text_no_brackets(lines: Seq<Seq<char>>, j: int, k: int)
    ensures
        no_brackets(cue_text(lines, j, k)),
    decreases k - j,
{
    if k > j {
        lemma_cue_text_no_brackets(lines, j, k - 1);
        lemma_strip_tags_no_brackets(trim(lines[k - 1]));
        let acc = cue_text(lines, j, k - 1);
        let p = strip_tags_spec(trim(lines[k - 1]));
        let r = add_piece(acc, p);
        assert forall|i: int| 0 <= i < r.len() implies #[trigger] r[i] != '<' && r[i] != '>' by {
            if acc.len() > 0 {
                if i < acc.len() {
                    assert(r[i] == acc[i]);
                } else if i > acc.len() {
                    assert(r[i] == p[i - acc.len() - 1]);
                }
            }
        }
    }
}

proof fn lemma_scan_no_brackets(lines: Seq<Seq<char>>, i: int)
    ensures
        forall|q: int| 0 <= q < scan(lines, i).len() ==> no_brackets(#[trigger] scan(lines, i)[q].2),
    decreases lines.len() + 1 - i,
{
    if !(i < 0 || i >= lines.len()) {
        match parse_timestamp_line_spec(trim(lines[i])) {
            Some((a, b)) => {
                let k = text_end(lines, i + 1);
                lemma_text_end_bounds(lines, i + 1);
                lemma_cue_text_no_brackets(lines, i + 1, k);
                lemma_scan_no_brackets(lines, k + 1);
                let t = cue_text(lines, i + 1, k);
                let rest = scan(lines, k + 1);
                let r = scan(lines, i);
                if t.len() > 0 {
                    assert(r == seq![(a, b, t)] + rest);
                } else {
                    assert(r == rest);
                }
                assert forall|q: int| 0 <= q < r.len() implies no_brackets(#[trigger] r[q].2) by {
                    if t.len() > 0 && q > 0 {
                        assert(r[q] == rest[q - 1]);
                    }
                }
            },
            None => {
                lemma_scan_no_brackets(lines, i + 1);
                assert(scan(lines, i) == scan(lines, i + 1));
            },
        }
    }
}

proof fn lemma_word_starts_bounds(s: Seq<char>)
    ensures
        forall|q: int| 0 <= q < word_starts(s).len() ==> 0 <= #[trigger] word_starts(s)[q] < s.len(),
    decreases s.len(),
{
    if s.len() > 0 {
        lemma_word_starts_bounds(s.drop_last());
        let before = word_starts(s.drop_last());
        let w = word_starts(s);
        assert forall|q: int| 0 <= q < w.len() implies 0 <= #[trigger] w[q] < s.len() by {
            if q < before.len() {
                assert(w[q] == before[q]);
            }
        }
    }
}

proof fn lemma_trim_start_no_brackets(s: Seq<char>)
    requires
        no_brackets(s),
    ensures
        no_brackets(trim_start(s)),
    decreases s.len(),
{
    if s.len() > 0 && is_ws(s[0]) {
        let d = s.drop_first();
        assert forall|i: int| 0 <= i < d.len() implies #[trigger] d[i] != '<' && d[i] != '>' by {
            assert(d[i] == s[i + 1]);
        }
        lemma_trim_start_no_brackets(d);
    }
}

proof fn lemma_trim_end_no_brackets(s: Seq<char>)
    requires
        no_brackets(s),
    ensures
        no_brackets(trim_end(s)),
    decreases s.len(),
{
    if s.len() > 0 && is_ws(s.last()) {
        let d = s.drop_last();
        assert forall|i: int| 0 <= i < d.len() implies #[trigger] d[i] != '<' && d[i] != '>' by {
            assert(d[i] == s[i]);
        }
        lemma_trim_end_no_brackets(d);
    }
}

proof fn lemma_dedup_no_brackets(cues: Seq<CueModel>)
    requires
        forall|q: int| 0 <= q < cues.len() ==> no_brackets(#[trigger] cues[q].2),
    ensures
        forall|q: int| 0 <= q < dedup_state(cues).0.len() ==> no_brackets(#[trigger] dedup_state(cues).0[q].2),
    decreases cues.len(),
{
    if cues.len() > 0 {
        let pre = cues.drop_last();
        assert forall|q: int| 0 <= q < pre.len() implies no_brackets(#[trigger] pre[q].2) by {
            assert(pre[q] == cues[q]);
        }
        lemma_dedup_no_brackets(pre);
        let (out, prev) = dedup_state(pre);
        let c = cues.last();
        assert(no_brackets(c.2)) by {
            assert(c == cues[cues.len() - 1]);
        }
        let cur = word_tokens_spec(c.2);
        let k = overlap(prev, cur);
        let sfw = strip_first_words_spec(c.2, k as nat);
        lemma_word_starts_bounds(c.2);
        let kn = k as nat;
        let ws = word_starts(c.2);
        assert(no_brackets(sfw)) by {
            if kn < ws.len() {
                let st = ws[kn as int];
                assert(0 <= st < c.2.len());
                assert(sfw == c.2.skip(st));
                assert forall|i: int| 0 <= i < sfw.len() implies #[trigger] sfw[i] != '<' && sfw[i] != '>' by {
                    assert(sfw[i] == c.2[st + i]);
                }
            }
        }
        lemma_trim_start_no_brackets(sfw);
        lemma_trim_end_no_brackets(trim_start(sfw));
        let t = trim(sfw);
        assert(no_brackets(t));
        let r = dedup_state(cues).0;
        assert(r == dedup_step(out, prev, c).0);
        assert forall|q: int| 0 <= q < r.len() implies no_brackets(#[trigger] r[q].2) by {
            if q < out.len() {
                assert(r[q].2 == out[q].2);
            } else {
                assert(r[q].2 == t);
            }
        }
    }
}

/// Parsed caption text carries no tag markup: no cue's text holds `<` or
/// `>`.
pub proof fn lemma_parse_no_tags(content: Seq<char>)
    ensures
        forall|q: int| 0 <= q < parse_spec(content).len() ==> no_brackets(#[trigger] parse_spec(content)[q].2),
{
    lemma_scan_no_brackets(lines(content), 0);
    lemma_dedup_no_brackets(scan(lines(content), 0));
}


proof fn lemma_word_starts_increasing(s: Seq<char>)
    ensures
        forall|q: int| 0 <= q < word_starts(s).len() ==> 0 <= #[trigger] word_starts(s)[q] < s.len()
            && is_word_start(s, word_starts(s)[q]),
        forall|a: int, b: int| 0 <= a < b < word_starts(s).len() ==> word_starts(s)[a] < word_starts(s)[b],
    decreases s.len(),
{
    if s.len() > 0 {
        let d = s.drop_last();
        lemma_word_starts_increasing(d);
        let before = word_starts(d);
        let w = word_starts(s);
        assert forall|q: int| 0 <= q < w.len() implies 0 <= #[trigger] w[q] < s.len() && is_word_start(s, w[q]) by {
            if q < before.len() {
                assert(w[q] == before[q]);
                let x = before[q];
                assert(is_word_start(d, x));
                assert(s[x] == d[x]);
                if x > 0 {
                    assert(s[x - 1] == d[x - 1]);
                }
            }
        }
        assert forall|a: int, b: int| 0 <= a < b < w.len() implies w[a] < w[b] by {
            assert(w[a] == before[a]);
            if b < before.len() {
                assert(w[b] == before[b]);
            }
        }
    }
}

/// Words begun so far: the finished runs, and one more while a run is open;
/// a run is open exactly when the text ends with a word character.
proof fn lemma_runs_state_count(p: Seq<char>)
    ensures
        word_starts(p).len() == runs_state(p, RunKind::WordChar).0.len() + (if runs_state(
            p,
            RunKind::WordChar,
        ).1.len() > 0 {
            1int
        } else {
            0int
        }),
        (runs_state(p, RunKind::WordChar).1.len() > 0) == (p.len() > 0 && is_word_char(p.last())),
    decreases p.len(),
{
    if p.len() > 0 {
        let q = p.drop_last();
        lemma_runs_state_count(q);
        if p.len() >= 2 {
            assert(p[p.len() - 2] == q.last());
        }
    }
}

/// From a point where no run is open and `n` runs are finished, the runs of
/// the rest are the runs of the whole after the first `n`.
proof fn lemma_runs_state_skip(s: Seq<char>, st: int, n: int, m: int)
    requires
        0 <= st <= m <= s.len(),
        runs_state(s.take(st), RunKind::WordChar).1.len() == 0,
        runs_state(s.take(st), RunKind::WordChar).0.len() == n,
    ensures
        runs_state(s.take(m), RunKind::WordChar).0.len() >= n,
        runs_state(s.take(m).skip(st), RunKind::WordChar) == (
            runs_state(s.take(m), RunKind::WordChar).0.skip(n),
            runs_state(s.take(m), RunKind::WordChar).1,
        ),
    decreases m - st,
{
    let k = RunKind::WordChar;
    if m == st {
        assert(s.take(m).skip(st) =~= Seq::<char>::empty());
        assert(runs_state(s.take(m), k).0.skip(n) =~= Seq::<Seq<char>>::empty());
    } else {
        lemma_runs_state_skip(s, st, n, m - 1);
        let p = s.take(m);
        let t = p.skip(st);
        assert(p.drop_last() =~= s.take(m - 1));
        assert(t.drop_last() =~= s.take(m - 1).skip(st));
        assert(t.last() == p.last());
        let (d, c) = runs_state(s.take(m - 1), k);
        if !in_run(k, p.last()) && c.len() > 0 {
            assert(d.push(c).skip(n) =~= d.skip(n).push(c));
        }
    }
}

/// Dropping the first `n` words leaves a tail of the text that begins with a
/// word character (or is empty), and its words are exactly the words of the
/// text after the first `n`.
pub proof fn lemma_strip_first_words_tokens(s: Seq<char>, n: nat)
    ensures
        strip_first_words_spec(s, n).len() <= s.len(),
        strip_first_words_spec(s, n) == s.skip(s.len() - strip_first_words_spec(s, n).len()),
        strip_first_words_spec(s, n).len() > 0 ==> is_word_char(strip_first_words_spec(s, n)[0]),
        runs(strip_first_words_spec(s, n), RunKind::WordChar) == runs(s, RunKind::WordChar).skip(
            if n < runs(s, RunKind::WordChar).len() { n as int } else { runs(s, RunKind::WordChar).len() as int },
        ),
        word_tokens_spec(strip_first_words_spec(s, n)) == word_tokens_spec(s).skip(
            if n < word_tokens_spec(s).len() { n as int } else { word_tokens_spec(s).len() as int },
        ),
{
    let k = RunKind::WordChar;
    let r = strip_first_words_spec(s, n);
    let ws = word_starts(s);
    lemma_runs_state_count(s);
    lemma_word_starts_increasing(s);
    let all = runs(s, k);
    assert(all.len() == ws.len());
    let cut: int = if n < all.len() { n as int } else { all.len() as int };
    if n < ws.len() {
        let st = ws[n as int];
        assert(is_word_start(s, st));
        lemma_word_starts_prefix(s, st);
        lemma_word_starts_prefix(s, st + 1);
        let pre = s.take(st);
        let pre1 = s.take(st + 1);
        assert(pre1.drop_last() == pre);
        assert(is_word_start(pre1, st) == is_word_start(s, st));
        let l: int = word_starts(pre).len() as int;
        assert(word_starts(pre1) == word_starts(pre).push(st));
        assert(ws.take(l + 1) == word_starts(pre1));
        assert(word_starts(pre1).len() == l + 1);
        assert(word_starts(pre1)[l] == st);
        assert(l + 1 <= ws.len());
        assert(ws.take(l + 1)[l] == ws[l]);
        assert(ws[l as int] == st);
        if (l as int) < n {
            assert(ws[l as int] < ws[n as int]);
        } else if (l as int) > n {
            assert(ws[n as int] < ws[l as int]);
        }
        assert(l == n);
        lemma_runs_state_count(pre);
        if st > 0 {
            assert(pre.last() == s[st - 1]);
        }
        lemma_runs_state_skip(s, st, n as int, s.len() as int);
        assert(s.take(s.len() as int) == s);
        assert(r == s.skip(st));
        let (d, c) = runs_state(s, k);
        if c.len() > 0 {
            assert(d.push(c).skip(n as int) =~= d.skip(n as int).push(c));
        }
        assert(runs(r, k) == all.skip(cut));
    } else {
        assert(r == Seq::<char>::empty());
        assert(runs_state(r, k) == (Seq::<Seq<char>>::empty(), Seq::<char>::empty()));
        assert(all.skip(cut) =~= Seq::<Seq<char>>::empty());
        assert(runs(r, k) =~= all.skip(cut));
        assert(s.skip(s.len() as int) =~= r);
    }
    assert(word_tokens_spec(s).len() == all.len());
    assert(word_tokens_spec(r) =~= word_tokens_spec(s).skip(cut));
}

} // verus!
