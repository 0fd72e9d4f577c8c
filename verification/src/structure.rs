//! Reading-view structure of a video: captions to clean sentences, the
//! requests that ask a chat model for paragraph breaks, and the paragraph
//! layout of the sentences.

use vstd::prelude::*;
use crate::json::{braces_reversed, json_array_at, json_array_model, json_items_model, json_object_text_spec, reply_array, JsonItem, JsonItemModel, JsonArrayModel};
use crate::text::{chars_of, string_of, vv};
use crate::translate::{
    build_word_stream, clean_sentence_opt, clean_sentence_text, clean_sentence_text_checked, clean_sentence_text_spec, clean_word_stream, clean_word_stream_spec,
    cue_full_model, cues_fit, local_paragraph_breaks, local_paragraph_breaks_spec, sent_model, sent_models,
    split_sentences_from_stream, split_sentences_from_stream_spec, word_stream, CueFull, SentModel, StreamSentence,
};
use crate::translation::{numbered_prompt, numbered_prompt_spec};

verus! {

/// How many of the paragraph requests have finished, of how many.
#[derive(Debug, Clone, Copy)]
pub struct StructureProgress {
    pub video_id: i64,
    pub done: usize,
    pub total: usize,
}

// ---------------------------------------------------------------------------
// Sentences
// ---------------------------------------------------------------------------

/// The sentences with their text cleaned of filler phrases; those left
/// empty are dropped.
pub open spec fn cleaned_sentences(ss: Seq<SentModel>) -> Seq<SentModel>
    decreases ss.len(),
{
    if ss.len() == 0 {
        Seq::empty()
    } else {
        let prev = cleaned_sentences(ss.drop_last());
        let s = ss.last();
        let t = clean_sentence_text_spec(s.0);
        if t.len() > 0 {
            prev.push((t, s.1, s.2, s.3, s.4))
        } else {
            prev
        }
    }
}

/// The captions' words in one stream, filler words, stutters and repeats
/// removed, cut at sentence ends.
pub open spec fn stream_sentences(cues: Seq<CueFull>) -> Seq<SentModel> {
    split_sentences_from_stream_spec(
        clean_word_stream_spec(word_stream(cues.map_values(|c: CueFull| cue_full_model(c)))),
    )
}

/// No sentence of the captions makes the phrase clean-up panic (see
/// `clean_sentence_opt`).
pub open spec fn sentences_cleanable(cues: Seq<CueFull>) -> bool {
    forall|i: int| 0 <= i < stream_sentences(cues).len() ==> clean_sentence_opt(
        #[trigger] stream_sentences(cues)[i].0,
    ) is Some
}

/// The sentences of the captions: the captions' words in one stream, filler
/// words, stutters and repeats removed, cut at sentence ends, each text
/// cleaned of filler phrases, empty ones dropped.
pub open spec fn structure_sentences_spec(cues: Seq<CueFull>) -> Seq<SentModel> {
    cleaned_sentences(stream_sentences(cues))
}

/// The sentences of the captions (see `structure_sentences_spec`); no
/// captions, or no sentence left, is an error. The captions are ones whose
/// sentences the clean-up does not panic on (see
/// `structure_sentences_checked`).
pub fn structure_sentences(cues: &Vec<CueFull>) -> (r: Result<Vec<StreamSentence>, String>)
    requires
        cues_fit(cues@),
        sentences_cleanable(cues@),
    ensures
        match r {
            Ok(v) => cues@.len() > 0 && sent_models(v@) == structure_sentences_spec(cues@) && v@.len() > 0,
            Err(e) => (cues@.len() == 0 && e@ == "还没有字幕，无法分段"@) || (cues@.len() > 0
                && structure_sentences_spec(cues@).len() == 0 && e@ == "未能切分出句子"@),
        },
{
    if cues.len() == 0 {
        let m = chars_of("还没有字幕，无法分段");
        return Err(string_of(m.as_slice()));
    }
    let words = build_word_stream(cues);
    let words = clean_word_stream(&words);
    let raw = split_sentences_from_stream(&words);
    let ghost rm = sent_models(raw@);
    let mut out: Vec<StreamSentence> = Vec::new();
    let mut i: usize = 0;
    assert(rm == stream_sentences(cues@));
    while i < raw.len()
        invariant
            i <= raw.len(),
            rm == sent_models(raw@),
            rm == stream_sentences(cues@),
            sentences_cleanable(cues@),
            sent_models(out@) == cleaned_sentences(rm.take(i as int)),
        decreases raw.len() - i,
    {
        assert(rm.take(i + 1).drop_last() == rm.take(i as int));
        assert(rm.take(i + 1).last() == sent_model(raw@[i as int]));
        assert(clean_sentence_opt(rm[i as int].0) is Some);
        let t = clean_sentence_text(raw[i].text.as_str());
        if !t.as_str().is_empty() {
            let ghost o0 = out@;
            out.push(
                StreamSentence {
                    text: t,
                    start_ms: raw[i].start_ms,
                    end_ms: raw[i].end_ms,
                    cue_from: raw[i].cue_from,
                    cue_to: raw[i].cue_to,
                },
            );
            assert(sent_models(out@) =~= sent_models(o0).push(sent_model(out@.last())));
        } else {
            assert(t@.len() == 0);
        }
        i += 1;
    }
    assert(rm.take(raw.len() as int) == rm);
    if out.len() == 0 {
        let m = chars_of("未能切分出句子");
        return Err(string_of(m.as_slice()));
    }
    Ok(out)
}

/// The sentences of the captions (see `structure_sentences`), or `None`
/// when the clean-up would panic on one of them.
pub fn structure_sentences_checked(cues: &Vec<CueFull>) -> (r: Option<Result<Vec<StreamSentence>, String>>)
    requires
        cues_fit(cues@),
    ensures
        match r {
            None => !sentences_cleanable(cues@),
            Some(r) => sentences_cleanable(cues@) && match r {
                Ok(v) => cues@.len() > 0 && sent_models(v@) == structure_sentences_spec(cues@) && v@.len() > 0,
                Err(e) => (cues@.len() == 0 && e@ == "还没有字幕，无法分段"@) || (cues@.len() > 0
                    && structure_sentences_spec(cues@).len() == 0 && e@ == "未能切分出句子"@),
            },
        },
{
    let words = build_word_stream(cues);
    let words = clean_word_stream(&words);
    let raw = split_sentences_from_stream(&words);
    let ghost rm = sent_models(raw@);
    assert(rm == stream_sentences(cues@));
    let mut i: usize = 0;
    while i < raw.len()
        invariant
            i <= raw.len(),
            rm == sent_models(raw@),
            rm == stream_sentences(cues@),
            forall|k: int| 0 <= k < i ==> clean_sentence_opt(#[trigger] rm[k].0) is Some,
        decreases raw.len() - i,
    {
        assert(rm[i as int].0 == raw@[i as int].text@);
        if clean_sentence_text_checked(raw[i].text.as_str()).is_none() {
            return None;
        }
        i += 1;
    }
    Some(structure_sentences(cues))
}

// ---------------------------------------------------------------------------
// Paragraph requests
// ---------------------------------------------------------------------------

/// Sentences per paragraph request.
pub const STRUCTURE_CHUNK: usize = 150;

pub open spec fn sent_texts(ss: Seq<StreamSentence>) -> Seq<Seq<char>> {
    ss.map_values(|s: StreamSentence| s.text@)
}

pub open spec fn min_nat(a: nat, b: nat) -> nat {
    if a <= b {
        a
    } else {
        b
    }
}

/// The requests: the sentences in chunks of 150, each chunk's sentences
/// numbered by their index in the whole video, one per line.
pub open spec fn chunk_prompts_spec(texts: Seq<Seq<char>>) -> Seq<Seq<char>> {
    Seq::new(
        ((texts.len() + 149) / 150) as nat,
        |c: int| numbered_prompt_spec(texts.subrange(150 * c, min_nat((150 * c + 150) as nat, texts.len()) as int), (150 * c) as nat),
    )
}

/// Builds the paragraph requests: see `chunk_prompts_spec`.
pub fn chunk_prompts(sents: &Vec<StreamSentence>) -> (r: Vec<String>)
    ensures
        r@.map_values(|s: String| s@) == chunk_prompts_spec(sent_texts(sents@)),
{
    let ghost tv = sent_texts(sents@);
    let n = sents.len();
    let nch: usize = n / 150 + if n % 150 == 0 { 0 } else { 1 };
    assert(nch == (n + 149) / 150) by (nonlinear_arith)
        requires
            nch == n / 150 + if n % 150 == 0 { 0int } else { 1int },
    ;
    let mut out: Vec<String> = Vec::new();
    let mut c: usize = 0;
    while c < nch
        invariant
            n == sents.len(),
            tv == sent_texts(sents@),
            nch == (n + 149) / 150,
            c <= nch,
            out@.map_values(|s: String| s@) == chunk_prompts_spec(tv).take(c as int),
        decreases nch - c,
    {
        assert(150 * c < n) by (nonlinear_arith)
            requires
                c < nch,
                nch == (n + 149) / 150,
        ;
        let start: usize = 150 * c;
        let end: usize = if n - start > 150 { start + 150 } else { n };
        let mut texts: Vec<Vec<char>> = Vec::new();
        let mut k: usize = start;
        while k < end
            invariant
                start <= k <= end <= n,
                n == sents.len(),
                tv == sent_texts(sents@),
                vv(texts@) == tv.subrange(start as int, k as int),
            decreases end - k,
        {
            let t = chars_of(sents[k].text.as_str());
            let ghost t0 = texts@;
            texts.push(t);
            assert(vv(texts@) =~= tv.subrange(start as int, k + 1)) by {
                assert(vv(texts@) =~= vv(t0).push(t@));
            }
            k += 1;
        }
        let p = numbered_prompt(&texts, start as u64);
        let ghost o0 = out@;
        out.push(string_of(p.as_slice()));
        assert(end as nat == min_nat((150 * c + 150) as nat, tv.len()));
        assert(out@.map_values(|s: String| s@) =~= chunk_prompts_spec(tv).take(c + 1)) by {
            assert(out@.map_values(|s: String| s@) =~= o0.map_values(|s: String| s@).push(p@));
        }
        c = c + 1;
    }
    assert(chunk_prompts_spec(tv).take(c as int) =~= chunk_prompts_spec(tv));
    out
}

/// The whole numbers of the answer's array, in order; nothing when the
/// answer could not be read.
pub open spec fn numbers_of(items: Seq<JsonItemModel>) -> Seq<u64>
    decreases items.len(),
{
    if items.len() == 0 {
        Seq::empty()
    } else {
        let prev = numbers_of(items.drop_last());
        match items.last().1 {
            Some(n) => prev.push(n),
            None => prev,
        }
    }
}

/// The paragraph breaks an answer gives (the sentence numbers after which a
/// paragraph ends).
pub open spec fn chunk_breaks_spec(parsed: JsonArrayModel) -> Seq<u64> {
    match parsed {
        Ok(Some(items)) => numbers_of(items),
        _ => Seq::empty(),
    }
}

/// Reads the breaks of a parsed answer: see `chunk_breaks_spec`.
pub fn chunk_breaks_from(parsed: Result<Option<Vec<JsonItem>>, String>) -> (r: Vec<u64>)
    ensures
        r@ == chunk_breaks_spec(json_array_model(parsed)),
{
    let mut out: Vec<u64> = Vec::new();
    match parsed {
        Ok(Some(items)) => {
            let ghost im = json_items_model(items@);
            let mut i: usize = 0;
            while i < items.len()
                invariant
                    i <= items.len(),
                    im == json_items_model(items@),
                    out@ == numbers_of(im.take(i as int)),
                decreases items.len() - i,
            {
                assert(im.take(i + 1).drop_last() == im.take(i as int));
                match items[i].number {
                    Some(n) => out.push(n),
                    None => {},
                }
                i += 1;
            }
            assert(im.take(items.len() as int) == im);
        },
        _ => {},
    }
    out
}

/// The breaks of a model's reply: the array under `p` of the JSON object in
/// it, as `chunk_breaks_spec` reads it.
pub fn chunk_breaks(out: &str) -> (r: Vec<u64>)
    requires
        !braces_reversed(out@),
    ensures
        r@ == chunk_breaks_spec(json_array_at(json_object_text_spec(out@), "p"@)),
{
    let parsed = reply_array(out, "p");
    chunk_breaks_from(parsed)
}

// ---------------------------------------------------------------------------
// Paragraph breaks and layout
// ---------------------------------------------------------------------------

pub open spec fn seqs64(v: Seq<Vec<u64>>) -> Seq<Seq<u64>> {
    v.map_values(|x: Vec<u64>| x@)
}

/// `x` is among the breaks of some chunk.
pub open spec fn in_any(chunks: Seq<Seq<u64>>, x: u64) -> bool {
    exists|i: int| 0 <= i < chunks.len() && #[trigger] chunks[i].contains(x)
}

pub open spec fn strictly_increasing(s: Seq<u64>) -> bool {
    forall|i: int, j: int| 0 <= i < j < s.len() ==> s[i] < s[j]
}

fn insert_sorted(v: &mut Vec<u64>, x: u64)
    requires
        strictly_increasing(old(v)@),
    ensures
        strictly_increasing(final(v)@),
        forall|y: u64| #[trigger] final(v)@.contains(y) <==> (old(v)@.contains(y) || y == x),
{
    let mut p: usize = 0;
    while p < v.len() && v[p] < x
        invariant
            p <= v.len(),
            v@ == old(v)@,
            strictly_increasing(v@),
            forall|k: int| 0 <= k < p ==> v@[k] < x,
        decreases v.len() - p,
    {
        p += 1;
    }
    if p < v.len() && v[p] == x {
        assert(v@[p as int] == x);
        assert(v@.contains(x));
        return;
    }
    let ghost v0 = v@;
    v.insert(p, x);
    assert(v@ == v0.insert(p as int, x));
    assert forall|i: int, j: int| 0 <= i < j < v@.len() implies v@[i] < v@[j] by {
        if j < p {
        } else if j == p {
        } else if i < p {
            assert(v@[j] == v0[j - 1]);
            assert(v0[j - 1] >= v0[p as int]);
        } else if i == p {
            assert(v@[j] == v0[j - 1]);
            assert(v0[j - 1] >= v0[p as int]);
        } else {
            assert(v@[i] == v0[i - 1]);
            assert(v@[j] == v0[j - 1]);
        }
    }
    assert forall|y: u64| #[trigger] v@.contains(y) <==> (v0.contains(y) || y == x) by {
        if v@.contains(y) {
            let k = choose|k: int| 0 <= k < v@.len() && v@[k] == y;
            if k < p {
                assert(v0[k] == y);
            } else if k > p {
                assert(v0[k - 1] == y);
            }
        }
        if v0.contains(y) {
            let k = choose|k: int| 0 <= k < v0.len() && v0[k] == y;
            if k < p {
                assert(v@[k] == y);
            } else {
                assert(v@[k + 1] == y);
            }
        }
        if y == x {
            assert(v@[p as int] == x);
        }
    }
    assert(v0 == old(v)@);
}

/// Puts the breaks of all chunks together: each once, in increasing order.
pub fn merge_breaks(chunks: &Vec<Vec<u64>>) -> (r: Vec<u64>)
    ensures
        strictly_increasing(r@),
        forall|x: u64| r@.contains(x) <==> in_any(seqs64(chunks@), x),
{
    let ghost cs = seqs64(chunks@);
    let mut out: Vec<u64> = Vec::new();
    let mut i: usize = 0;
    while i < chunks.len()
        invariant
            i <= chunks.len(),
            cs == seqs64(chunks@),
            strictly_increasing(out@),
            forall|x: u64| #[trigger] out@.contains(x) <==> in_any(cs.take(i as int), x),
        decreases chunks.len() - i,
    {
        let ghost o_i = out@;
        let mut j: usize = 0;
        while j < chunks[i].len()
            invariant
                i < chunks.len(),
                j <= chunks@[i as int]@.len(),
                cs == seqs64(chunks@),
                strictly_increasing(out@),
                forall|x: u64| #[trigger] out@.contains(x) <==> (o_i.contains(x) || chunks[i as int]@.take(j as int).contains(x)),
            decreases chunks[i as int]@.len() - j,
        {
            let x = chunks[i][j];
            let ghost out0 = out@;
            insert_sorted(&mut out, x);
            proof {
                let c = chunks[i as int]@;
                assert(x == c[j as int]);
                let a = c.take(j as int);
                let b = c.take(j + 1);
                assert(b == a.push(x));
                assert forall|y: u64| b.contains(y) <==> (a.contains(y) || y == x) by {
                    if b.contains(y) {
                        let k = choose|k: int| 0 <= k < b.len() && b[k] == y;
                        if k < j {
                            assert(a[k] == y);
                        }
                    }
                    if a.contains(y) {
                        let k = choose|k: int| 0 <= k < a.len() && a[k] == y;
                        assert(b[k] == y);
                    }
                    if y == x {
                        assert(b[j as int] == y);
                    }
                }
                assert forall|y: u64| out@.contains(y) <==> (o_i.contains(y) || b.contains(y)) by {
                    assert(out@.contains(y) <==> (out0.contains(y) || y == x));
                    assert(out0.contains(y) <==> (o_i.contains(y) || a.contains(y)));
                }
            }
            j += 1;
        }
        proof {
            let c = chunks[i as int]@;
            assert(c.take(c.len() as int) == c);
            assert(cs[i as int] == c);
            let a = cs.take(i as int);
            let b = cs.take(i + 1);
            assert forall|x: u64| in_any(b, x) <==> (in_any(a, x) || c.contains(x)) by {
                if in_any(b, x) {
                    let k = choose|k: int| 0 <= k < b.len() && #[trigger] b[k].contains(x);
                    if k < i {
                        assert(a[k] == b[k]);
                    }
                }
                if in_any(a, x) {
                    let k = choose|k: int| 0 <= k < a.len() && #[trigger] a[k].contains(x);
                    assert(b[k] == a[k]);
                }
                if c.contains(x) {
                    assert(b[i as int] == c);
                }
            }
        }
        i += 1;
    }
    assert(cs.take(chunks.len() as int) == cs);
    out
}

pub open spec fn widen(v: Seq<usize>) -> Seq<u64> {
    v.map_values(|b: usize| b as u64)
}

/// The breaks used: those the model gave, or, when it gave none, the breaks
/// after long pauses.
pub open spec fn final_breaks_spec(merged: Seq<u64>, sents: Seq<SentModel>) -> Seq<u64> {
    if merged.len() == 0 {
        widen(local_paragraph_breaks_spec(sents))
    } else {
        merged
    }
}

/// Chooses the breaks: see `final_breaks_spec`.
pub fn final_breaks(merged: Vec<u64>, sents: &Vec<StreamSentence>) -> (r: Vec<u64>)
    ensures
        r@ == final_breaks_spec(merged@, sent_models(sents@)),
{
    if merged.len() > 0 {
        return merged;
    }
    let local = local_paragraph_breaks(sents);
    let mut out: Vec<u64> = Vec::new();
    let mut i: usize = 0;
    while i < local.len()
        invariant
            i <= local.len(),
            out@ == widen(local@).take(i as int),
        decreases local.len() - i,
    {
        out.push(local[i] as u64);
        assert(out@ =~= widen(local@).take(i + 1));
        i += 1;
    }
    assert(widen(local@).take(local.len() as int) == widen(local@));
    out
}

/// Going through the sentences in order: their (paragraph, place in
/// paragraph) so far, and the current paragraph and place. A sentence whose
/// index is a break ends its paragraph.
pub open spec fn layout_state(breaks: Seq<u64>, n: nat) -> (Seq<(int, int)>, int, int)
    decreases n,
{
    if n == 0 {
        (Seq::empty(), 0, 0)
    } else {
        let prev = layout_state(breaks, (n - 1) as nat);
        let rows = prev.0.push((prev.1, prev.2));
        if breaks.contains((n - 1) as u64) {
            (rows, prev.1 + 1, 0)
        } else {
            (rows, prev.1, prev.2 + 1)
        }
    }
}

/// Each sentence's paragraph and its place in the paragraph.
pub open spec fn paragraph_layout_spec(breaks: Seq<u64>, n: nat) -> Seq<(int, int)> {
    layout_state(breaks, n).0
}

pub open spec fn layout_models(v: Seq<(usize, usize)>) -> Seq<(int, int)> {
    v.map_values(|r: (usize, usize)| (r.0 as int, r.1 as int))
}

fn contains_u64(v: &Vec<u64>, x: u64) -> (r: bool)
    ensures
        r == v@.contains(x),
{
    let mut i: usize = 0;
    while i < v.len()
        invariant
            i <= v.len(),
            forall|k: int| 0 <= k < i ==> v@[k] != x,
        decreases v.len() - i,
    {
        if v[i] == x {
            assert(v@[i as int] == x);
            return true;
        }
        i += 1;
    }
    false
}

proof fn lemma_layout_bounds(breaks: Seq<u64>, n: nat)
    ensures
        0 <= layout_state(breaks, n).1 <= n,
        0 <= layout_state(breaks, n).2 <= n,
        layout_state(breaks, n).0.len() == n,
    decreases n,
{
    if n > 0 {
        lemma_layout_bounds(breaks, (n - 1) as nat);
    }
}

/// Lays the sentences out in paragraphs: see `paragraph_layout_spec`.
pub fn paragraph_layout(n: usize, breaks: &Vec<u64>) -> (r: Vec<(usize, usize)>)
    ensures
        layout_models(r@) == paragraph_layout_spec(breaks@, n as nat),
{
    let mut rows: Vec<(usize, usize)> = Vec::new();
    let mut para: usize = 0;
    let mut sent: usize = 0;
    let mut i: usize = 0;
    while i < n
        invariant
            i <= n,
            (layout_models(rows@), para as int, sent as int) == layout_state(breaks@, i as nat),
        decreases n - i,
    {
        proof {
            lemma_layout_bounds(breaks@, i as nat);
        }
        let ghost r0 = rows@;
        rows.push((para, sent));
        assert(layout_models(rows@) =~= layout_models(r0).push((para as int, sent as int)));
        if contains_u64(breaks, i as u64) {
            para = para + 1;
            sent = 0;
        } else {
            sent = sent + 1;
        }
        i += 1;
    }
    rows
}

proof fn lemma_layout_prefix(breaks: Seq<u64>, n: nat, i: int)
    requires
        0 <= i < n,
    ensures
        layout_state(breaks, n).0[i] == layout_state(breaks, (i + 1) as nat).0[i],
    decreases n,
{
    lemma_layout_bounds(breaks, n);
    if n > i + 1 {
        let m = (n - 1) as nat;
        lemma_layout_prefix(breaks, m, i);
        lemma_layout_bounds(breaks, m);
        assert(layout_state(breaks, n).0[i] == layout_state(breaks, m).0[i]);
    }
}

/// Every sentence gets a row; the first opens paragraph 0; each next one
/// either continues its predecessor's paragraph one place further, or, when
/// the predecessor's index is a break, opens the next paragraph.
pub proof fn lemma_paragraph_layout_steps(breaks: Seq<u64>, n: nat)
    ensures
        paragraph_layout_spec(breaks, n).len() == n,
        n > 0 ==> paragraph_layout_spec(breaks, n)[0] == (0int, 0int),
        forall|i: int|
            0 < i < n ==> #[trigger] paragraph_layout_spec(breaks, n)[i] == if breaks.contains((i - 1) as u64) {
                (paragraph_layout_spec(breaks, n)[i - 1].0 + 1, 0int)
            } else {
                (paragraph_layout_spec(breaks, n)[i - 1].0, paragraph_layout_spec(breaks, n)[i - 1].1 + 1)
            },
{
    lemma_layout_bounds(breaks, n);
    let rows = paragraph_layout_spec(breaks, n);
    if n > 0 {
        lemma_layout_prefix(breaks, n, 0);
        assert(layout_state(breaks, 0).0 == Seq::<(int, int)>::empty());
        assert(layout_state(breaks, 1).0 =~= seq![(0int, 0int)]);
    }
    assert forall|i: int| 0 < i < n implies #[trigger] rows[i] == if breaks.contains((i - 1) as u64) {
        (rows[i - 1].0 + 1, 0int)
    } else {
        (rows[i - 1].0, rows[i - 1].1 + 1)
    } by {
        lemma_layout_prefix(breaks, n, i);
        lemma_layout_prefix(breaks, n, i - 1);
        lemma_layout_prefix(breaks, i as nat, i - 1);
        lemma_layout_bounds(breaks, i as nat);
        lemma_layout_last(breaks, i as nat);
        let st = layout_state(breaks, i as nat);
        assert(layout_state(breaks, (i + 1) as nat).0 == st.0.push((st.1, st.2)));
    }
}

proof fn lemma_layout_last(breaks: Seq<u64>, m: nat)
    requires
        m > 0,
    ensures
        ({
            let st = layout_state(breaks, m);
            let last = st.0[m - 1];
            (st.1, st.2) == if breaks.contains((m - 1) as u64) {
                (last.0 + 1, 0int)
            } else {
                (last.0, last.1 + 1)
            }
        }),
{
    lemma_layout_bounds(breaks, (m - 1) as nat);
}

} // verus!
