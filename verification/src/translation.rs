//! Translating captions with a chat model: the blocks sent per request, the
//! numbered prompt, reading the answer, the run's tally, and the text given
//! for a summary.

use vstd::prelude::*;
use crate::decimal::{nat_text, u128_text, u64_text};
use crate::json::{json_array_at, json_array_model, json_object_text_spec, braces_reversed, reply_array, JsonItem, JsonItemModel, JsonArrayModel};
use crate::translate::pair_models;
use crate::text::{chars_of, join, join_exec, lemma_utf8_len_bounds, push_all, push_str, string_of, trim, trim_vec, utf8_len, utf8_len_exec, vv};

verus! {

/// A caption that has no translation yet.
#[derive(Debug, Clone)]
pub struct CueRow {
    pub id: i64,
    pub text_en: String,
}

/// What one translation request reported: how many blocks are done of how
/// many, and the (caption id, translation) pairs the block gave.
#[derive(Debug, Clone)]
pub struct TranslateProgress {
    pub video_id: i64,
    pub done: usize,
    pub total: usize,
    pub pairs: Vec<(i64, String)>,
}

// ---------------------------------------------------------------------------
// Blocks
// ---------------------------------------------------------------------------

/// The UTF-8 length of each caption text.
pub open spec fn cue_lens(cues: Seq<CueRow>) -> Seq<nat> {
    cues.map_values(|c: CueRow| utf8_len(c.text_en@))
}

/// Going through the captions in order: the closed blocks, where the open
/// block starts, and its length so far. A caption that would take the open
/// block over 1200 bytes closes it first, unless the block is empty.
pub open spec fn block_state(lens: Seq<nat>) -> (Seq<(int, int)>, int, nat)
    decreases lens.len(),
{
    if lens.len() == 0 {
        (Seq::empty(), 0, 0)
    } else {
        let prev = block_state(lens.drop_last());
        let i = lens.len() - 1;
        let l = lens.last();
        if prev.2 + l > 1200 && prev.1 < i {
            (prev.0.push((prev.1, i)), i, l)
        } else {
            (prev.0, prev.1, prev.2 + l)
        }
    }
}

/// The blocks as index ranges `[from, to)` of the captions: greedy, each
/// block at most 1200 bytes of caption text unless it is a single caption.
pub open spec fn blocks_spec(lens: Seq<nat>) -> Seq<(int, int)> {
    let st = block_state(lens);
    if st.1 < lens.len() {
        st.0.push((st.1, lens.len() as int))
    } else {
        st.0
    }
}

pub open spec fn range_models(v: Seq<(usize, usize)>) -> Seq<(int, int)> {
    v.map_values(|r: (usize, usize)| (r.0 as int, r.1 as int))
}

proof fn lemma_block_state_start(lens: Seq<nat>)
    ensures
        block_state(lens).1 <= lens.len(),
        lens.len() > 0 ==> block_state(lens).1 < lens.len(),
    decreases lens.len(),
{
    if lens.len() > 0 {
        lemma_block_state_start(lens.drop_last());
    }
}

/// Groups the captions into request blocks: see `blocks_spec`.
pub fn translation_blocks(cues: &Vec<CueRow>) -> (r: Vec<(usize, usize)>)
    ensures
        range_models(r@) == blocks_spec(cue_lens(cues@)),
{
    let ghost lens = cue_lens(cues@);
    let mut out: Vec<(usize, usize)> = Vec::new();
    let mut start: usize = 0;
    let mut cur_len: u128 = 0;
    let mut i: usize = 0;
    while i < cues.len()
        invariant
            i <= cues.len(),
            lens == cue_lens(cues@),
            (range_models(out@), start as int, cur_len as nat) == block_state(lens.take(i as int)),
            start <= i,
            i > 0 ==> start < i,
            cur_len <= 1200 + 4 * (usize::MAX as nat),
        decreases cues.len() - i,
    {
        assert(lens.take(i + 1).drop_last() == lens.take(i as int));
        let t = chars_of(cues[i].text_en.as_str());
        let l = utf8_len_exec(&t);
        let tl = t.len();
        proof {
            lemma_utf8_len_bounds(t@);
            assert(t@.len() == tl);
            assert(l <= 4 * (usize::MAX as nat));
            if i == 0 {
                assert(cur_len == 0);
            }
        }
        assert(lens.take(i + 1).last() == l as nat);
        if cur_len + l > 1200 && start < i {
            let ghost o0 = out@;
            out.push((start, i));
            assert(range_models(out@) =~= range_models(o0).push((start as int, i as int)));
            start = i;
            cur_len = l;
        } else {
            cur_len = cur_len + l;
        }
        i += 1;
    }
    assert(lens.take(cues.len() as int) == lens);
    if start < cues.len() {
        let ghost o0 = out@;
        out.push((start, cues.len()));
        assert(range_models(out@) =~= range_models(o0).push((start as int, cues.len() as int)));
    }
    out
}

/// The bytes of captions `[a, b)`.
pub open spec fn seg_sum(lens: Seq<nat>, a: int, b: int) -> nat
    decreases b - a,
{
    if b <= a {
        0
    } else {
        seg_sum(lens, a, b - 1) + lens[b - 1]
    }
}

/// Blocks that split `[0, n)` into consecutive, non-empty ranges, each at
/// most 1200 bytes unless it holds a single caption.
pub open spec fn blocks_partition(lens: Seq<nat>, bs: Seq<(int, int)>, n: int) -> bool {
    &&& forall|j: int| 0 <= j < bs.len() ==> #[trigger] bs[j].0 < bs[j].1
    &&& forall|j: int| 0 <= j < bs.len() - 1 ==> #[trigger] bs[j].1 == bs[j + 1].0
    &&& bs.len() > 0 ==> bs[0].0 == 0 && bs.last().1 == n
    &&& bs.len() == 0 ==> n == 0
    &&& forall|j: int|
        0 <= j < bs.len() ==> #[trigger] bs[j].1 - bs[j].0 == 1 || seg_sum(lens, bs[j].0, bs[j].1) <= 1200
}

proof fn lemma_seg_sum_prefix(lens: Seq<nat>, a: int, b: int, n: int)
    requires
        0 <= a <= b <= n <= lens.len(),
    ensures
        seg_sum(lens.take(n), a, b) == seg_sum(lens, a, b),
    decreases b - a,
{
    if b > a {
        lemma_seg_sum_prefix(lens, a, b - 1, n);
    }
}

pub open spec fn block_state_inv(lens: Seq<nat>, st: (Seq<(int, int)>, int, nat)) -> bool {
    &&& st.2 == seg_sum(lens, st.1, lens.len() as int)
    &&& 0 <= st.1 <= lens.len()
    &&& lens.len() > 0 ==> st.1 < lens.len()
    &&& lens.len() > 0 ==> (st.2 <= 1200 || st.1 == lens.len() - 1)
    &&& blocks_partition(lens, st.0, st.1)
}

proof fn lemma_seg_sum_drop_last(lens: Seq<nat>, a: int, b: int)
    requires
        lens.len() > 0,
        0 <= a <= b <= lens.len() - 1,
    ensures
        seg_sum(lens, a, b) == seg_sum(lens.drop_last(), a, b),
{
    lemma_seg_sum_prefix(lens, a, b, lens.len() - 1);
    assert(lens.take(lens.len() - 1) == lens.drop_last());
}

proof fn lemma_partition_extend(lens: Seq<nat>, bs: Seq<(int, int)>, n: int)
    requires
        lens.len() > 0,
        0 <= n <= lens.len() - 1,
        blocks_partition(lens.drop_last(), bs, n),
    ensures
        blocks_partition(lens, bs, n),
{
    assert forall|j: int| 0 <= j < bs.len() implies #[trigger] bs[j].1 - bs[j].0 == 1 || seg_sum(lens, bs[j].0, bs[j].1) <= 1200 by {
        if j < bs.len() - 1 {
            assert(bs[j].1 == bs[j + 1].0);
        }
        lemma_partition_bounds(lens.drop_last(), bs, n, j);
        lemma_seg_sum_drop_last(lens, bs[j].0, bs[j].1);
    }
}

proof fn lemma_partition_bounds(lens: Seq<nat>, bs: Seq<(int, int)>, n: int, j: int)
    requires
        blocks_partition(lens, bs, n),
        0 <= j < bs.len(),
    ensures
        0 <= bs[j].0 < bs[j].1 <= n,
    decreases bs.len() - j,
{
    if j < bs.len() - 1 {
        lemma_partition_bounds(lens, bs, n, j + 1);
        assert(bs[j].1 == bs[j + 1].0);
    }
    lemma_partition_start(lens, bs, n, j);
}

proof fn lemma_partition_start(lens: Seq<nat>, bs: Seq<(int, int)>, n: int, j: int)
    requires
        blocks_partition(lens, bs, n),
        0 <= j < bs.len(),
    ensures
        0 <= bs[j].0,
    decreases j,
{
    if j > 0 {
        lemma_partition_start(lens, bs, n, j - 1);
        assert(bs[j - 1].1 == bs[j].0);
    }
}

proof fn lemma_block_state_inv(lens: Seq<nat>)
    ensures
        block_state_inv(lens, block_state(lens)),
    decreases lens.len(),
{
    if lens.len() > 0 {
        let pl = lens.drop_last();
        lemma_block_state_inv(pl);
        let prev = block_state(pl);
        let i = lens.len() - 1;
        let st = block_state(lens);
        lemma_partition_extend(lens, prev.0, prev.1);
        lemma_seg_sum_drop_last(lens, prev.1, i);
        assert(seg_sum(lens, prev.1, i + 1) == seg_sum(lens, prev.1, i) + lens[i]);
        if prev.2 + lens.last() > 1200 && prev.1 < i {
            lemma_partition_push(lens, prev.0, prev.1, i);
            assert(seg_sum(lens, i, i + 1) == seg_sum(lens, i, i) + lens[i]);
            assert(st.2 == seg_sum(lens, st.1, lens.len() as int));
        } else {
            assert(st.2 == seg_sum(lens, st.1, lens.len() as int));
        }
    }
}

proof fn lemma_partition_push(lens: Seq<nat>, bs: Seq<(int, int)>, n: int, m: int)
    requires
        blocks_partition(lens, bs, n),
        0 <= n < m,
        m - n == 1 || seg_sum(lens, n, m) <= 1200,
    ensures
        blocks_partition(lens, bs.push((n, m)), m),
{
    let b2 = bs.push((n, m));
    assert forall|j: int| 0 <= j < b2.len() implies #[trigger] b2[j].0 < b2[j].1 by {
        if j < b2.len() - 1 {
            assert(b2[j] == bs[j]);
        }
    }
    assert forall|j: int| 0 <= j < b2.len() - 1 implies #[trigger] b2[j].1 == b2[j + 1].0 by {
        assert(b2[j] == bs[j]);
        if j < b2.len() - 2 {
            assert(b2[j + 1] == bs[j + 1]);
        }
    }
    assert forall|j: int| 0 <= j < b2.len() implies #[trigger] b2[j].1 - b2[j].0 == 1 || seg_sum(lens, b2[j].0, b2[j].1) <= 1200 by {
        if j < b2.len() - 1 {
            assert(b2[j] == bs[j]);
        }
    }
}

/// The blocks split the captions into consecutive, non-empty ranges that
/// cover all of them, each at most 1200 bytes of caption text unless it is a
/// single caption.
pub proof fn lemma_blocks_partition(lens: Seq<nat>)
    ensures
        blocks_partition(lens, blocks_spec(lens), lens.len() as int),
{
    lemma_block_state_inv(lens);
    let st = block_state(lens);
    let bs = blocks_spec(lens);
    if st.1 < lens.len() {
        lemma_partition_push(lens, st.0, st.1, lens.len() as int);
    }
}

// ---------------------------------------------------------------------------
// Prompts
// ---------------------------------------------------------------------------

/// `n. text`
pub open spec fn numbered_line(n: nat, t: Seq<char>) -> Seq<char> {
    nat_text(n) + ". "@ + t
}

/// The texts numbered from `first` on, one per line.
pub open spec fn numbered_prompt_spec(texts: Seq<Seq<char>>, first: nat) -> Seq<char> {
    join(Seq::new(texts.len(), |j: int| numbered_line((first + j) as nat, texts[j])), "\n"@)
}

/// Numbers the texts from `first` on, one per line: see
/// `numbered_prompt_spec`.
pub fn numbered_prompt(texts: &Vec<Vec<char>>, first: u64) -> (r: Vec<char>)
    ensures
        r@ == numbered_prompt_spec(vv(texts@), first as nat),
{
    let ghost tv = vv(texts@);
    let mut lines: Vec<Vec<char>> = Vec::new();
    let mut j: usize = 0;
    while j < texts.len()
        invariant
            j <= texts.len(),
            tv == vv(texts@),
            vv(lines@) == Seq::new(j as nat, |k: int| numbered_line((first + k) as nat, tv[k])),
        decreases texts.len() - j,
    {
        let n: u128 = first as u128 + j as u128;
        let mut line = u128_text(n);
        push_str(&mut line, ". ");
        push_all(&mut line, &texts[j]);
        let ghost l0 = lines@;
        lines.push(line);
        assert(vv(lines@) =~= Seq::new((j + 1) as nat, |k: int| numbered_line((first + k) as nat, tv[k]))) by {
            assert(vv(lines@) =~= vv(l0).push(line@));
        }
        j += 1;
    }
    let nl = chars_of("\n");
    assert(vv(lines@) =~= Seq::new(tv.len(), |k: int| numbered_line((first + k) as nat, tv[k])));
    join_exec(&lines, &nl)
}

/// The caption texts.
pub open spec fn cue_texts(cues: Seq<CueRow>) -> Seq<Seq<char>> {
    cues.map_values(|c: CueRow| c.text_en@)
}

/// The caption ids.
pub open spec fn cue_ids(cues: Seq<CueRow>) -> Seq<i64> {
    cues.map_values(|c: CueRow| c.id)
}

/// The request for block `[from, to)`: its captions numbered from 1.
pub fn block_prompt(cues: &Vec<CueRow>, from: usize, to: usize) -> (r: String)
    requires
        from <= to <= cues.len(),
    ensures
        r@ == numbered_prompt_spec(cue_texts(cues@).subrange(from as int, to as int), 1),
{
    let mut texts: Vec<Vec<char>> = Vec::new();
    let mut k: usize = from;
    while k < to
        invariant
            from <= k <= to <= cues.len(),
            vv(texts@) == cue_texts(cues@).subrange(from as int, k as int),
        decreases to - k,
    {
        let t = chars_of(cues[k].text_en.as_str());
        let ghost t0 = texts@;
        texts.push(t);
        assert(vv(texts@) =~= cue_texts(cues@).subrange(from as int, k + 1)) by {
            assert(vv(texts@) =~= vv(t0).push(t@));
        }
        k += 1;
    }
    let p = numbered_prompt(&texts, 1);
    string_of(p.as_slice())
}

// ---------------------------------------------------------------------------
// Reading the answer
// ---------------------------------------------------------------------------

pub open spec fn item_text(x: JsonItemModel) -> Seq<char> {
    match x.0 {
        Some(t) => t,
        None => Seq::empty(),
    }
}

/// The translations a block's answer gives: one per caption, in order,
/// trimmed, a non-string element counting as empty. A parse error, a missing
/// array and a count that differs from the block's are errors.
pub open spec fn translations_spec(ids: Seq<i64>, parsed: JsonArrayModel) -> Result<Seq<(i64, Seq<char>)>, Seq<char>> {
    match parsed {
        Err(e) => Err("LLM 输出解析失败: "@ + e),
        Ok(None) => Err("LLM 输出缺少 translations 数组"@),
        Ok(Some(arr)) => if arr.len() != ids.len() {
            Err("译文数量("@ + nat_text(arr.len()) + ")与原文("@ + nat_text(ids.len()) + ")不一致"@)
        } else {
            Ok(Seq::new(ids.len(), |j: int| (ids[j], trim(item_text(arr[j])))))
        },
    }
}

pub open spec fn pairs_result_model(r: Result<Vec<(i64, String)>, String>) -> Result<Seq<(i64, Seq<char>)>, Seq<char>> {
    match r {
        Ok(v) => Ok(pair_models(v@)),
        Err(e) => Err(e@),
    }
}

/// Pairs the captions with the parsed answer: see `translations_spec`.
pub fn translations_from(ids: &Vec<i64>, parsed: Result<Option<Vec<JsonItem>>, String>) -> (r: Result<Vec<(i64, String)>, String>)
    ensures
        pairs_result_model(r) == translations_spec(ids@, json_array_model(parsed)),
{
    match parsed {
        Err(e) => {
            let mut m = chars_of("LLM 输出解析失败: ");
            push_str(&mut m, e.as_str());
            Err(string_of(m.as_slice()))
        },
        Ok(None) => {
            let m = chars_of("LLM 输出缺少 translations 数组");
            Err(string_of(m.as_slice()))
        },
        Ok(Some(arr)) => {
            if arr.len() != ids.len() {
                let mut m = chars_of("译文数量(");
                let a = u64_text(arr.len() as u64);
                push_all(&mut m, &a);
                push_str(&mut m, ")与原文(");
                let b = u64_text(ids.len() as u64);
                push_all(&mut m, &b);
                push_str(&mut m, ")不一致");
                return Err(string_of(m.as_slice()));
            }
            let ghost am = crate::json::json_items_model(arr@);
            let mut out: Vec<(i64, String)> = Vec::new();
            let mut j: usize = 0;
            while j < arr.len()
                invariant
                    j <= arr.len() == ids.len(),
                    am == crate::json::json_items_model(arr@),
                    pair_models(out@) == Seq::new(j as nat, |k: int| (ids@[k], trim(item_text(am[k])))),
                decreases arr.len() - j,
            {
                let t: Vec<char> = match &arr[j].text {
                    Some(x) => chars_of(x.as_str()),
                    None => Vec::new(),
                };
                assert(t@ == item_text(am[j as int]));
                let tt = trim_vec(&t);
                let ghost o0 = out@;
                out.push((ids[j], string_of(tt.as_slice())));
                assert(pair_models(out@) =~= Seq::new((j + 1) as nat, |k: int| (ids@[k], trim(item_text(am[k]))))) by {
                    assert(pair_models(out@) =~= pair_models(o0).push((ids@[j as int], tt@)));
                }
                j += 1;
            }
            Ok(out)
        },
    }
}

/// Reads a model's answer for block `[from, to)`: the array under
/// `translations` of the JSON object in the reply, read as
/// `translations_spec` says.
pub fn block_translations(cues: &Vec<CueRow>, from: usize, to: usize, out: &str) -> (r: Result<Vec<(i64, String)>, String>)
    requires
        from <= to <= cues.len(),
        !braces_reversed(out@),
    ensures
        pairs_result_model(r) == translations_spec(
            cue_ids(cues@).subrange(from as int, to as int),
            json_array_at(json_object_text_spec(out@), "translations"@),
        ),
{
    let mut ids: Vec<i64> = Vec::new();
    let mut k: usize = from;
    while k < to
        invariant
            from <= k <= to <= cues.len(),
            ids@ == cue_ids(cues@).subrange(from as int, k as int),
        decreases to - k,
    {
        ids.push(cues[k].id);
        assert(ids@ =~= cue_ids(cues@).subrange(from as int, k + 1));
        k += 1;
    }
    let parsed = reply_array(out, "translations");
    translations_from(&ids, parsed)
}

// ---------------------------------------------------------------------------
// The run's tally
// ---------------------------------------------------------------------------

/// The outcome of a run with failed blocks.
pub open spec fn failure_message_spec(failed: nat, total: nat, translated: nat, first: Seq<char>) -> Seq<char> {
    nat_text(failed) + "/"@ + nat_text(total) + " 个分块翻译失败（已译 "@ + nat_text(translated)
        + " 句已保存，重新点击翻译可续传）："@ + first
}

/// Blocks finished so far, captions translated, and the errors of failed
/// blocks in the order they finished.
#[derive(Debug, Clone)]
pub struct TranslateTally {
    pub done: usize,
    pub translated: usize,
    pub failures: Vec<String>,
}

impl TranslateTally {
    /// Nothing finished yet.
    pub fn new() -> (r: TranslateTally)
        ensures
            r.done == 0,
            r.translated == 0,
            r.failures@.len() == 0,
    {
        TranslateTally { done: 0, translated: 0, failures: Vec::new() }
    }

    /// A block finished: a block that gave pairs adds them to the count, a
    /// failed one adds its error; the progress report carries the pairs (none
    /// for a failure).
    pub fn record(&mut self, video_id: i64, total: usize, res: Result<Vec<(i64, String)>, String>) -> (p: TranslateProgress)
        requires
            old(self).done < usize::MAX,
            res is Ok ==> old(self).translated + res->Ok_0@.len() <= usize::MAX,
        ensures
            final(self).done == old(self).done + 1,
            p.video_id == video_id,
            p.done == final(self).done,
            p.total == total,
            match res {
                Ok(pairs) => {
                    &&& final(self).translated == old(self).translated + pairs@.len()
                    &&& final(self).failures@ == old(self).failures@
                    &&& p.pairs@ == pairs@
                },
                Err(e) => {
                    &&& final(self).translated == old(self).translated
                    &&& final(self).failures@ == old(self).failures@.push(e)
                    &&& p.pairs@.len() == 0
                },
            },
    {
        self.done = self.done + 1;
        match res {
            Ok(pairs) => {
                self.translated = self.translated + pairs.len();
                TranslateProgress { video_id, done: self.done, total, pairs }
            },
            Err(e) => {
                self.failures.push(e);
                TranslateProgress { video_id, done: self.done, total, pairs: Vec::new() }
            },
        }
    }

    /// The run's result: the count translated, or, when a block failed, how
    /// many failed of `total`, how many captions were saved, and the first
    /// error.
    pub fn outcome(&self, total: usize) -> (r: Result<usize, String>)
        ensures
            self.failures@.len() == 0 ==> r == Ok::<usize, String>(self.translated),
            self.failures@.len() > 0 ==> (r is Err && r->Err_0@ == failure_message_spec(
                self.failures@.len(),
                total as nat,
                self.translated as nat,
                self.failures@[0]@,
            )),
    {
        if self.failures.len() == 0 {
            return Ok(self.translated);
        }
        let mut m = u64_text(self.failures.len() as u64);
        push_str(&mut m, "/");
        let t = u64_text(total as u64);
        push_all(&mut m, &t);
        push_str(&mut m, " 个分块翻译失败（已译 ");
        let n = u64_text(self.translated as u64);
        push_all(&mut m, &n);
        push_str(&mut m, " 句已保存，重新点击翻译可续传）：");
        push_str(&mut m, self.failures[0].as_str());
        Err(string_of(m.as_slice()))
    }
}

// ---------------------------------------------------------------------------
// Summary input
// ---------------------------------------------------------------------------

pub open spec fn str_views(v: Seq<String>) -> Seq<Seq<char>> {
    v.map_values(|s: String| s@)
}

/// The text given for a summary: the captions joined by spaces, cut to
/// 12000 characters with a note when longer; no captions is an error.
pub open spec fn tldr_input_spec(texts: Seq<Seq<char>>) -> Result<Seq<char>, Seq<char>> {
    if texts.len() == 0 {
        Err("还没有字幕，无法生成 TLDR"@)
    } else {
        let full = join(texts, " "@);
        if full.len() > 12000 {
            Ok(full.take(12000) + " …(后文略)"@)
        } else {
            Ok(full)
        }
    }
}

/// Builds the summary input: see `tldr_input_spec`.
pub fn tldr_input(texts: &Vec<String>) -> (r: Result<String, String>)
    ensures
        match r {
            Ok(s) => tldr_input_spec(str_views(texts@)) == Ok::<Seq<char>, Seq<char>>(s@),
            Err(e) => tldr_input_spec(str_views(texts@)) == Err::<Seq<char>, Seq<char>>(e@),
        },
{
    if texts.len() == 0 {
        let m = chars_of("还没有字幕，无法生成 TLDR");
        return Err(string_of(m.as_slice()));
    }
    let mut parts: Vec<Vec<char>> = Vec::new();
    let mut i: usize = 0;
    while i < texts.len()
        invariant
            i <= texts.len(),
            vv(parts@) == str_views(texts@).take(i as int),
        decreases texts.len() - i,
    {
        let t = chars_of(texts[i].as_str());
        let ghost p0 = parts@;
        parts.push(t);
        assert(vv(parts@) =~= str_views(texts@).take(i + 1)) by {
            assert(vv(parts@) =~= vv(p0).push(t@));
        }
        i += 1;
    }
    assert(str_views(texts@).take(texts.len() as int) == str_views(texts@));
    let sp = chars_of(" ");
    let full = join_exec(&parts, &sp);
    if full.len() > 12000 {
        let mut cut = crate::text::subvec(&full, 0, 12000);
        push_str(&mut cut, " …(后文略)");
        Ok(string_of(cut.as_slice()))
    } else {
        Ok(string_of(full.as_slice()))
    }
}

} // verus!
