//! Vocabulary cards: the sentence around a looked-up word, word clean-up
//! before a dictionary lookup, and the review rules.

use vstd::prelude::*;
use crate::text::{
    chars_of, find, find_exec, in_run, is_word_char, is_alphanumeric, join, join_exec, lower,
    lemma_vv_push, chars_eq, string_of, strip_both, strip_both_vec, to_lower, trim, trim_vec, vv,
    Strip, utf8_len, utf8_len_exec, push_str,
};
use crate::dict::DictEntry;

verus! {

// ---------------------------------------------------------------------------
// Sentences of a context
// ---------------------------------------------------------------------------

pub open spec fn ends_sentence(c: char) -> bool {
    c == '.' || c == '!' || c == '?'
}

/// Sentences finished so far (trimmed) and the current piece.
pub open spec fn sentences_state(s: Seq<char>) -> (Seq<Seq<char>>, Seq<char>)
    decreases s.len(),
{
    if s.len() == 0 {
        (Seq::empty(), Seq::empty())
    } else {
        let (out, cur) = sentences_state(s.drop_last());
        let cur2 = cur.push(s.last());
        if ends_sentence(s.last()) {
            (out.push(trim(cur2)), Seq::empty())
        } else {
            (out, cur2)
        }
    }
}

/// The text cut after every `.`, `!` and `?`; each piece trimmed; a last
/// piece without such an end is kept when it is not blank.
pub open spec fn split_sentences_spec(text: Seq<char>) -> Seq<Seq<char>> {
    let (out, cur) = sentences_state(text);
    if trim(cur).len() > 0 {
        out.push(trim(cur))
    } else {
        out
    }
}

pub open spec fn string_views(v: Seq<String>) -> Seq<Seq<char>> {
    v.map_values(|s: String| s@)
}

/// Splits a text into sentences: see `split_sentences_spec`.
pub fn split_sentences(text: &str) -> (r: Vec<String>)
    ensures
        string_views(r@) == split_sentences_spec(text@),
{
    let t = chars_of(text);
    let mut out: Vec<String> = Vec::new();
    let mut cur: Vec<char> = Vec::new();
    let mut i: usize = 0;
    while i < t.len()
        invariant
            i <= t.len(),
            t@ == text@,
            (string_views(out@), cur@) == sentences_state(t@.take(i as int)),
        decreases t.len() - i,
    {
        assert(t@.take(i + 1).drop_last() == t@.take(i as int));
        let c = t[i];
        cur.push(c);
        if c == '.' || c == '!' || c == '?' {
            let tr = trim_vec(&cur);
            let st = string_of(tr.as_slice());
            let ghost o0 = out@;
            out.push(st);
            assert(string_views(out@) =~= string_views(o0).push(tr@));
            cur = Vec::new();
        }
        i += 1;
    }
    assert(t@.take(t.len() as int) == t@);
    let tr = trim_vec(&cur);
    if tr.len() > 0 {
        let st = string_of(tr.as_slice());
        let ghost o0 = out@;
        out.push(st);
        assert(string_views(out@) =~= string_views(o0).push(tr@));
    }
    out
}

/// Finished pieces and the current piece of a split at every character that
/// is not a letter, digit or `'`.
pub open spec fn word_split_state(s: Seq<char>) -> (Seq<Seq<char>>, Seq<char>)
    decreases s.len(),
{
    if s.len() == 0 {
        (Seq::empty(), Seq::empty())
    } else {
        let (done, cur) = word_split_state(s.drop_last());
        if !is_word_char(s.last()) {
            (done.push(cur), Seq::empty())
        } else {
            (done, cur.push(s.last()))
        }
    }
}

/// `str::split` at every character that is not a letter, digit or `'`:
/// the pieces between such characters, empty ones included.
pub open spec fn word_pieces(s: Seq<char>) -> Seq<Seq<char>> {
    let (done, cur) = word_split_state(s);
    done.push(cur)
}

/// Whether the sentence holds the word as a whole word, ignoring case: some
/// piece of the sentence, lowered, equals `word_lower`.
pub open spec fn contains_word_spec(sentence: Seq<char>, word_lower: Seq<char>) -> bool {
    exists|i: int| 0 <= i < word_pieces(sentence).len() && #[trigger] lower(word_pieces(sentence)[i])
        == word_lower
}

fn word_pieces_exec(s: &Vec<char>) -> (r: Vec<Vec<char>>)
    ensures
        vv(r@) == word_pieces(s@),
{
    let mut done: Vec<Vec<char>> = Vec::new();
    let mut cur: Vec<char> = Vec::new();
    let mut i: usize = 0;
    while i < s.len()
        invariant
            i <= s.len(),
            (vv(done@), cur@) == word_split_state(s@.take(i as int)),
        decreases s.len() - i,
    {
        assert(s@.take(i + 1).drop_last() == s@.take(i as int));
        let c = s[i];
        if !(is_alphanumeric(c) || c == '\'') {
            proof {
                lemma_vv_push(done@, cur);
            }
            done.push(cur);
            cur = Vec::new();
        } else {
            cur.push(c);
        }
        i += 1;
    }
    assert(s@.take(s.len() as int) == s@);
    proof {
        lemma_vv_push(done@, cur);
    }
    done.push(cur);
    done
}

fn contains_word_vec(s: &Vec<char>, w: &Vec<char>) -> (r: bool)
    ensures
        r == contains_word_spec(s@, w@),
{
    let pieces = word_pieces_exec(s);
    let ghost pv = vv(pieces@);
    let mut i: usize = 0;
    while i < pieces.len()
        invariant
            i <= pieces.len(),
            pv == vv(pieces@),
            pv == word_pieces(s@),
            forall|k: int| 0 <= k < i ==> #[trigger] lower(pv[k]) != w@,
        decreases pieces.len() - i,
    {
        let l = to_lower(&pieces[i]);
        assert(pv[i as int] == pieces@[i as int]@);
        if chars_eq(&l, w) {
            return true;
        }
        i += 1;
    }
    false
}

/// Case-insensitive whole-word match: see `contains_word_spec`.
pub fn contains_word(sentence: &str, word_lower: &str) -> (r: bool)
    ensures
        r == contains_word_spec(sentence@, word_lower@),
{
    let s = chars_of(sentence);
    let w = chars_of(word_lower);
    contains_word_vec(&s, &w)
}

/// The first index of a sentence that holds the word as a whole word.
pub open spec fn first_whole_word(sents: Seq<Seq<char>>, w: Seq<char>, i: int) -> Option<int>
    decreases sents.len() - i,
{
    if i < 0 || i >= sents.len() {
        None
    } else if contains_word_spec(sents[i], w) {
        Some(i)
    } else {
        first_whole_word(sents, w, i + 1)
    }
}

/// The first index of a sentence whose lowered text holds the word anywhere.
pub open spec fn first_substring(sents: Seq<Seq<char>>, w: Seq<char>, i: int) -> Option<int>
    decreases sents.len() - i,
{
    if i < 0 || i >= sents.len() {
        None
    } else if find(lower(sents[i]), w) is Some {
        Some(i)
    } else {
        first_substring(sents, w, i + 1)
    }
}

/// The sentence of the context to show with a word: the caption texts are
/// joined by spaces and cut into sentences; the first that holds the word as a
/// whole word (any case) is chosen, else the first whose lowered text holds
/// it at all; `None` when neither exists.
pub open spec fn context_sentence_spec(rows: Seq<Seq<char>>, word: Seq<char>) -> Option<Seq<char>> {
    let sents = split_sentences_spec(join(rows, " "@));
    let w = lower(word);
    match first_whole_word(sents, w, 0) {
        Some(i) => Some(sents[i]),
        None => match first_substring(sents, w, 0) {
            Some(i) => Some(sents[i]),
            None => None,
        },
    }
}

/// Picks the sentence of the context that holds a word: see
/// `context_sentence_spec`.
pub fn context_sentence(rows: &Vec<String>, word: &str) -> (r: Option<String>)
    ensures
        match r {
            Some(s) => context_sentence_spec(string_views(rows@), word@) == Some(s@),
            None => context_sentence_spec(string_views(rows@), word@) is None,
        },
{
    let mut parts: Vec<Vec<char>> = Vec::new();
    let mut i: usize = 0;
    while i < rows.len()
        invariant
            i <= rows.len(),
            vv(parts@) == string_views(rows@).take(i as int),
        decreases rows.len() - i,
    {
        let p = chars_of(rows[i].as_str());
        proof {
            lemma_vv_push(parts@, p);
        }
        parts.push(p);
        assert(string_views(rows@).take(i + 1) =~= string_views(rows@).take(i as int).push(rows@[i as int]@));
        i += 1;
    }
    assert(string_views(rows@).take(rows.len() as int) == string_views(rows@));
    let sep = chars_of(" ");
    let text = join_exec(&parts, &sep);
    let text_s = string_of(text.as_slice());
    let sents = split_sentences(text_s.as_str());
    assert(text_s@ == join(string_views(rows@), " "@));
    let ghost sv = string_views(sents@);
    let wv0 = chars_of(word);
    let w = to_lower(&wv0);
    let mut j: usize = 0;
    while j < sents.len()
        invariant
            j <= sents.len(),
            sv == string_views(sents@),
            sv == split_sentences_spec(join(string_views(rows@), " "@)),
            w@ == lower(word@),
            first_whole_word(sv, w@, 0) == first_whole_word(sv, w@, j as int),
        decreases sents.len() - j,
    {
        let sc = chars_of(sents[j].as_str());
        assert(sv[j as int] == sents@[j as int]@);
        if contains_word_vec(&sc, &w) {
            return Some(sents[j].clone());
        }
        j += 1;
    }
    let mut k: usize = 0;
    while k < sents.len()
        invariant
            k <= sents.len(),
            sv == string_views(sents@),
            sv == split_sentences_spec(join(string_views(rows@), " "@)),
            w@ == lower(word@),
            first_whole_word(sv, w@, 0) is None,
            first_substring(sv, w@, 0) == first_substring(sv, w@, k as int),
        decreases sents.len() - k,
    {
        let sc = chars_of(sents[k].as_str());
        let lsc = to_lower(&sc);
        assert(sv[k as int] == sents@[k as int]@);
        if find_exec(&lsc, &w).is_some() {
            return Some(sents[k].clone());
        }
        k += 1;
    }
    None
}


// ---------------------------------------------------------------------------
// Looking a word up
// ---------------------------------------------------------------------------

/// What a lookup found: rich MDX text and the ECDICT row.
#[derive(Debug, Clone)]
pub struct RichLookup {
    /// MDX rich-text definition (HTML with examples), when one was found.
    pub mdx_html: Option<String>,
    /// The ECDICT row, also used for the phonetics when MDX has the word.
    pub entry: Option<DictEntry>,
}

/// A saved word shown highlighted in the captions.
#[derive(Debug, Clone)]
pub struct SavedWord {
    pub word: String,
    pub definition: Option<String>,
    pub ai_analysis: Option<String>,
}

/// One finished review round.
#[derive(Debug, Clone)]
pub struct ReviewRound {
    pub id: i64,
    pub total: i64,
    pub correct: i64,
    pub score: i64,
    pub created_at: String,
}

/// Counts of the review page.
#[derive(Debug, Clone, Copy)]
pub struct ReviewStats {
    pub total: i64,
    pub mastered: i64,
    pub due: i64,
}

impl ReviewStats {
    /// The words still due are those not mastered.
    pub fn from_counts(total: i64, mastered: i64) -> (r: ReviewStats)
        requires
            i64::MIN <= total - mastered <= i64::MAX,
        ensures
            r.total == total,
            r.mastered == mastered,
            r.due == total - mastered,
    {
        ReviewStats { total, mastered, due: total - mastered }
    }
}

/// A clicked word made ready for lookup: trimmed, then stripped at both ends
/// of everything but letters, `'` and `-`.
pub open spec fn clean_lookup_word_spec(word: Seq<char>) -> Seq<char> {
    strip_both(trim(word), Strip::NonWordish)
}

/// Cleans a clicked word: see `clean_lookup_word_spec`.
pub fn clean_lookup_word(word: &str) -> (r: String)
    ensures
        r@ == clean_lookup_word_spec(word@),
{
    let w = chars_of(word);
    let t = trim_vec(&w);
    let c = strip_both_vec(&t, Strip::NonWordish);
    string_of(c.as_slice())
}

/// The error of a lookup that found nothing while no ECDICT file is set.
pub fn lookup_missing_error(mdx_found: bool, entry_found: bool, dict_configured: bool) -> (r: Option<String>)
    ensures
        r is Some == (!mdx_found && !entry_found && !dict_configured),
        r matches Some(m) ==> m@ == "未找到词条。可在设置页配置 ECDICT 或导入 MDX 词典"@,
{
    if !mdx_found && !entry_found && !dict_configured {
        let v = chars_of("未找到词条。可在设置页配置 ECDICT 或导入 MDX 词典");
        Some(string_of(v.as_slice()))
    } else {
        None
    }
}

/// A stored setting counts only when it is not blank (the value is kept as
/// stored).
pub fn nonblank_setting(value: Option<String>) -> (r: Option<String>)
    ensures
        match value {
            Some(v) => if trim(v@).len() > 0 { r == Some(v) } else { r is None },
            None => r is None,
        },
{
    match value {
        Some(v) => {
            let c = chars_of(v.as_str());
            let t = trim_vec(&c);
            if t.len() > 0 {
                Some(v)
            } else {
                None
            }
        },
        None => None,
    }
}

/// The ECDICT path setting, or the error asking to set it.
pub fn dict_path_from(value: Option<String>) -> (r: Result<String, String>)
    ensures
        match value {
            Some(v) => if trim(v@).len() > 0 { r == Ok::<String, String>(v) } else {
                r matches Err(e) && e@ == "请先在设置页配置 ECDICT 词典文件路径"@
            },
            None => r matches Err(e) && e@ == "请先在设置页配置 ECDICT 词典文件路径"@,
        },
{
    match nonblank_setting(value) {
        Some(v) => Ok(v),
        None => {
            let m = chars_of("请先在设置页配置 ECDICT 词典文件路径");
            Err(string_of(m.as_slice()))
        },
    }
}

/// The word to pronounce: trimmed; `None` when that is empty or longer than
/// 100 bytes in UTF-8.
pub open spec fn speakable_word_spec(word: Seq<char>) -> Option<Seq<char>> {
    let t = trim(word);
    if t.len() == 0 || utf8_len(t) > 100 {
        None
    } else {
        Some(t)
    }
}

/// Checks a word before it is spoken: see `speakable_word_spec`.
pub fn speakable_word(word: &str) -> (r: Option<String>)
    ensures
        match r {
            Some(s) => speakable_word_spec(word@) == Some(s@),
            None => speakable_word_spec(word@) is None,
        },
{
    let w = chars_of(word);
    let t = trim_vec(&w);
    if t.len() == 0 || utf8_len_exec(&t) > 100 {
        None
    } else {
        Some(string_of(t.as_slice()))
    }
}

/// The question put to the model about a word in its sentence.
pub fn analyze_prompt(word: &str, context: &str) -> (r: String)
    ensures
        r@ == "单词："@ + word@ + "\n原句："@ + context@,
{
    let mut v: Vec<char> = Vec::new();
    push_str(&mut v, "单词：");
    push_str(&mut v, word);
    push_str(&mut v, "\n原句：");
    push_str(&mut v, context);
    string_of(v.as_slice())
}

// ---------------------------------------------------------------------------
// Review rules
// ---------------------------------------------------------------------------

/// How a review answer counts.
#[derive(Debug, Clone, Copy, PartialEq, Eq)]
pub enum ReviewOutcome {
    /// Answered right, at once or after a hint.
    Remembered,
    /// Answered wrong or skipped.
    Forgotten,
}

/// Reads a review answer: "correct" and "hinted" are remembered, "failed"
/// and "skipped" forgotten; anything else is the error "未知的作答结果".
pub fn review_outcome(result: &str) -> (r: Result<ReviewOutcome, String>)
    ensures
        match r {
            Ok(o) => (o == ReviewOutcome::Remembered && (result@ == "correct"@ || result@ == "hinted"@))
                || (o == ReviewOutcome::Forgotten && (result@ == "failed"@ || result@ == "skipped"@)),
            Err(e) => result@ != "correct"@ && result@ != "hinted"@ && result@ != "failed"@
                && result@ != "skipped"@ && e@ == "未知的作答结果"@,
        },
{
    let r = chars_of(result);
    let c = chars_of("correct");
    let h = chars_of("hinted");
    let f = chars_of("failed");
    let s = chars_of("skipped");
    if chars_eq(&r, &c) || chars_eq(&r, &h) {
        Ok(ReviewOutcome::Remembered)
    } else if chars_eq(&r, &f) || chars_eq(&r, &s) {
        Ok(ReviewOutcome::Forgotten)
    } else {
        let m = chars_of("未知的作答结果");
        Err(string_of(m.as_slice()))
    }
}

/// The review counters of a card.
#[derive(Debug, Clone, Copy, PartialEq, Eq)]
pub struct ReviewState {
    pub review_count: i64,
    pub fail_streak: i64,
    pub mastered: i64,
}

/// The counters after one answer: a remembered word counts one more review,
/// its failure streak ends, and it is mastered from the third review on; a
/// forgotten word lengthens its failure streak and is not mastered.
pub open spec fn apply_review_spec(s: ReviewState, o: ReviewOutcome) -> ReviewState {
    match o {
        ReviewOutcome::Remembered => ReviewState {
            review_count: (s.review_count + 1) as i64,
            fail_streak: 0,
            mastered: if s.review_count + 1 >= 3 { 1 } else { 0 },
        },
        ReviewOutcome::Forgotten => ReviewState {
            review_count: s.review_count,
            fail_streak: (s.fail_streak + 1) as i64,
            mastered: 0,
        },
    }
}

/// Applies one answer: see `apply_review_spec`.
pub fn apply_review(s: ReviewState, o: ReviewOutcome) -> (r: ReviewState)
    requires
        s.review_count < i64::MAX,
        s.fail_streak < i64::MAX,
    ensures
        r == apply_review_spec(s, o),
{
    match o {
        ReviewOutcome::Remembered => ReviewState {
            review_count: s.review_count + 1,
            fail_streak: 0,
            mastered: if s.review_count + 1 >= 3 { 1 } else { 0 },
        },
        ReviewOutcome::Forgotten => ReviewState {
            review_count: s.review_count,
            fail_streak: s.fail_streak + 1,
            mastered: 0,
        },
    }
}

/// How many candidates to fetch before shuffling: three times the limit.
pub fn review_pool_size(limit: i64) -> (r: i64)
    requires
        i64::MIN <= 3 * limit <= i64::MAX,
    ensures
        r == 3 * limit,
{
    limit * 3
}

/// Puts the items in a random order with `rand::seq::SliceRandom::shuffle`
/// and the thread's generator (`rand::rng()`). The order is chance's; what
/// holds of every outcome is that the items are the same, each as often.
#[verifier::external_body]
fn shuffled<T>(v: Vec<T>) -> (r: Vec<T>)
    ensures
        r@.to_multiset() == v@.to_multiset(),
{
    let mut v = v;
    rand::seq::SliceRandom::shuffle(v.as_mut_slice(), &mut rand::rng());
    v
}

/// How many review cards are kept of `n` fetched: all when the limit is
/// negative or not below `n`, else the limit.
pub open spec fn kept_count(n: nat, limit: i64) -> nat {
    if limit < 0 || n <= limit {
        n
    } else {
        limit as nat
    }
}

/// The review round's cards: the fetched cards in a random order, cut to the
/// limit.
pub fn pick_review_cards<T>(rows: Vec<T>, limit: i64) -> (r: Vec<T>)
    ensures
        exists|order: Seq<T>|
            order.to_multiset() == rows@.to_multiset() && r@ == order.take(kept_count(rows@.len(), limit) as int),
{
    let ghost n = rows@.len();
    let ghost rv = rows@;
    let mut v = shuffled(rows);
    let ghost order = v@;
    proof {
        vstd::seq_lib::to_multiset_len(order);
        vstd::seq_lib::to_multiset_len(rv);
    }
    if limit >= 0 && (limit as u64) < (v.len() as u64) {
        v.truncate(limit as usize);
    } else {
        assert(order.take(order.len() as int) == order);
    }
    assert(v@ == order.take(kept_count(n, limit) as int));
    v
}

/// A card is mastered only after its third review counted as remembered,
/// with no failure streak; a forgotten answer always unmasters it and
/// lengthens its streak.
pub proof fn lemma_review_mastery(s: ReviewState, o: ReviewOutcome)
    requires
        s.review_count < i64::MAX,
        s.fail_streak < i64::MAX,
    ensures
        apply_review_spec(s, o).mastered == 1 ==> (apply_review_spec(s, o).review_count >= 3
            && apply_review_spec(s, o).fail_streak == 0),
        o == ReviewOutcome::Forgotten ==> (apply_review_spec(s, o).mastered == 0
            && apply_review_spec(s, o).fail_streak == s.fail_streak + 1),
        o == ReviewOutcome::Remembered ==> apply_review_spec(s, o).fail_streak == 0,
{
}

} // verus!
