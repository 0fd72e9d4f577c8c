//! Character-level text utilities shared by the subtitle, sentence and
//! dictionary logic. Strings are modelled by their `Seq<char>` view.

use vstd::prelude::*;

verus! {

// ---------------------------------------------------------------------------
// Character classes
// ---------------------------------------------------------------------------

/// Unicode `White_Space`, the set `char::is_whitespace` accepts.
pub open spec fn is_ws(c: char) -> bool {
    let u: u32 = c as u32;
    (9 <= u && u <= 13) || u == 32 || u == 0x85 || u == 0xA0 || u == 0x1680
        || (0x2000 <= u && u <= 0x200A) || u == 0x2028 || u == 0x2029
        || u == 0x202F || u == 0x205F || u == 0x3000
}

pub open spec fn is_ascii_digit_spec(c: char) -> bool {
    '0' <= c && c <= '9'
}

pub open spec fn is_ascii_upper(c: char) -> bool {
    'A' <= c && c <= 'Z'
}

pub open spec fn is_ascii_lower(c: char) -> bool {
    'a' <= c && c <= 'z'
}

pub open spec fn is_ascii(c: char) -> bool {
    (c as u32) < 128
}

pub open spec fn ascii_alnum(c: char) -> bool {
    is_ascii_digit_spec(c) || is_ascii_upper(c) || is_ascii_lower(c)
}

/// `char::to_ascii_lowercase`.
pub open spec fn ascii_lower(c: char) -> char {
    if is_ascii_upper(c) {
        ((c as u32) + 32) as char
    } else {
        c
    }
}

/// `char::to_ascii_uppercase`.
pub open spec fn ascii_upper(c: char) -> char {
    if is_ascii_lower(c) {
        ((c as u32) - 32) as char
    } else {
        c
    }
}

/// What `char::is_alphanumeric` answers for a character outside ASCII.
pub uninterp spec fn unicode_alnum(c: char) -> bool;

/// What `char::is_alphabetic` answers for a character outside ASCII.
pub uninterp spec fn unicode_alpha(c: char) -> bool;

/// `char::is_alphanumeric`: in ASCII exactly the letters and digits.
pub open spec fn is_alnum(c: char) -> bool {
    if is_ascii(c) {
        ascii_alnum(c)
    } else {
        unicode_alnum(c)
    }
}

/// `char::is_alphabetic`: in ASCII exactly the letters.
pub open spec fn is_alpha(c: char) -> bool {
    if is_ascii(c) {
        is_ascii_upper(c) || is_ascii_lower(c)
    } else {
        unicode_alpha(c)
    }
}

/// Calls `char::is_alphanumeric` on a character outside ASCII; the answer is
/// named `unicode_alnum` (it follows the Unicode character tables).
#[verifier::external_body]
fn std_is_alphanumeric(c: char) -> (r: bool)
    ensures
        r == unicode_alnum(c),
{
    c.is_alphanumeric()
}

/// Calls `char::is_alphabetic` on a character outside ASCII; the answer is
/// named `unicode_alpha` (it follows the Unicode character tables).
#[verifier::external_body]
fn std_is_alphabetic(c: char) -> (r: bool)
    ensures
        r == unicode_alpha(c),
{
    c.is_alphabetic()
}

pub fn is_whitespace(c: char) -> (r: bool)
    ensures
        r == is_ws(c),
{
    let u: u32 = c as u32;
    (9 <= u && u <= 13) || u == 32 || u == 0x85 || u == 0xA0 || u == 0x1680
        || (0x2000 <= u && u <= 0x200A) || u == 0x2028 || u == 0x2029
        || u == 0x202F || u == 0x205F || u == 0x3000
}

pub fn is_digit(c: char) -> (r: bool)
    ensures
        r == is_ascii_digit_spec(c),
{
    '0' <= c && c <= '9'
}

pub fn is_alphanumeric(c: char) -> (r: bool)
    ensures
        r == is_alnum(c),
{
    if (c as u32) < 128 {
        ('0' <= c && c <= '9') || ('A' <= c && c <= 'Z') || ('a' <= c && c <= 'z')
    } else {
        std_is_alphanumeric(c)
    }
}

pub fn is_alphabetic(c: char) -> (r: bool)
    ensures
        r == is_alpha(c),
{
    if (c as u32) < 128 {
        ('A' <= c && c <= 'Z') || ('a' <= c && c <= 'z')
    } else {
        std_is_alphabetic(c)
    }
}

pub fn to_ascii_lower(c: char) -> (r: char)
    ensures
        r == ascii_lower(c),
{
    if 'A' <= c && c <= 'Z' {
        let u: u32 = (c as u32) + 32;
        assert(u < 0xD800);
        char_from_ascii(u)
    } else {
        c
    }
}

pub fn to_ascii_upper(c: char) -> (r: char)
    ensures
        r == ascii_upper(c),
{
    if 'a' <= c && c <= 'z' {
        let u: u32 = (c as u32) - 32;
        char_from_ascii(u)
    } else {
        c
    }
}

/// The character with an ASCII code point.
fn char_from_ascii(u: u32) -> (r: char)
    requires
        u < 128,
    ensures
        r == u as char,
        r as u32 == u,
{
    let b: u8 = u as u8;
    b as char
}

// ---------------------------------------------------------------------------
// Conversions between `str` and a vector of characters
// ---------------------------------------------------------------------------

/// `str::chars` collected into a vector: the characters of `s` in order.
#[verifier::external_body]
pub(crate) fn chars_of(s: &str) -> (v: Vec<char>)
    ensures
        v@ == s@,
{
    s.chars().collect()
}

/// A `String` made of the given characters in order (`FromIterator<&char>`).
#[verifier::external_body]
pub(crate) fn string_of(v: &[char]) -> (s: String)
    ensures
        s@ == v@,
{
    v.iter().collect()
}

/// A copy of `s[a..b]`.
pub fn subvec(s: &Vec<char>, a: usize, b: usize) -> (r: Vec<char>)
    requires
        a <= b <= s.len(),
    ensures
        r@ == s@.subrange(a as int, b as int),
{
    let mut r: Vec<char> = Vec::new();
    let mut i: usize = a;
    while i < b
        invariant
            a <= i <= b <= s.len(),
            r@ == s@.subrange(a as int, i as int),
        decreases b - i,
    {
        r.push(s[i]);
        i += 1;
    }
    r
}

/// Appends all of `t` to `out`.
pub fn push_all(out: &mut Vec<char>, t: &Vec<char>)
    ensures
        final(out)@ == old(out)@ + t@,
{
    let mut i: usize = 0;
    let ghost start = out@;
    while i < t.len()
        invariant
            i <= t.len(),
            out@ == start + t@.take(i as int),
        decreases t.len() - i,
    {
        out.push(t[i]);
        i += 1;
    }
    assert(t@.take(t.len() as int) == t@);
}

/// Appends the characters of a string slice to `out`.
pub fn push_str(out: &mut Vec<char>, t: &str)
    ensures
        final(out)@ == old(out)@ + t@,
{
    let v = chars_of(t);
    push_all(out, &v);
}

/// Whether two character sequences are equal.
pub fn chars_eq(a: &Vec<char>, b: &Vec<char>) -> (r: bool)
    ensures
        r == (a@ == b@),
{
    if a.len() != b.len() {
        return false;
    }
    let mut i: usize = 0;
    while i < a.len()
        invariant
            a.len() == b.len(),
            i <= a.len(),
            a@.take(i as int) == b@.take(i as int),
        decreases a.len() - i,
    {
        if a[i] != b[i] {
            assert(a@[i as int] != b@[i as int]);
            return false;
        }
        assert(a@.take(i + 1) == a@.take(i as int).push(a@[i as int]));
        assert(b@.take(i + 1) == b@.take(i as int).push(b@[i as int]));
        i += 1;
    }
    assert(a@.take(a.len() as int) == a@);
    assert(b@.take(b.len() as int) == b@);
    true
}

// ---------------------------------------------------------------------------
// Trimming
// ---------------------------------------------------------------------------

/// `str::trim_start`: leading white space removed.
pub open spec fn trim_start(s: Seq<char>) -> Seq<char>
    decreases s.len(),
{
    if s.len() > 0 && is_ws(s[0]) {
        trim_start(s.drop_first())
    } else {
        s
    }
}

pub proof fn lemma_trim_start_len(s: Seq<char>)
    ensures
        trim_start(s).len() <= s.len(),
    decreases s.len(),
{
    if s.len() > 0 && is_ws(s[0]) {
        lemma_trim_start_len(s.drop_first());
    }
}

/// `str::trim_end`: trailing white space removed.
pub open spec fn trim_end(s: Seq<char>) -> Seq<char>
    decreases s.len(),
{
    if s.len() > 0 && is_ws(s.last()) {
        trim_end(s.drop_last())
    } else {
        s
    }
}

/// What `trim_end` leaves is a prefix of the text that keeps every
/// character that is not white space, and ends with one such when it is not
/// empty.
pub proof fn lemma_trim_end_prefix(r: Seq<char>)
    ensures
        trim_end(r).len() <= r.len(),
        trim_end(r) == r.take(trim_end(r).len() as int),
        forall|i: int| 0 <= i < r.len() && !is_ws(#[trigger] r[i]) ==> i < trim_end(r).len(),
        trim_end(r).len() > 0 ==> !is_ws(trim_end(r).last()),
    decreases r.len(),
{
    if r.len() > 0 && is_ws(r.last()) {
        let d = r.drop_last();
        lemma_trim_end_prefix(d);
        assert(r.take(trim_end(d).len() as int) == d.take(trim_end(d).len() as int));
        assert forall|i: int| 0 <= i < r.len() && !is_ws(#[trigger] r[i]) implies i < trim_end(r).len() by {
            assert(i < r.len() - 1);
            assert(d[i] == r[i]);
        }
    } else {
        assert(r.take(r.len() as int) == r);
    }
}

/// Trailing white space of `a + b` is that of `b` when `b` holds a
/// character that is not white space.
pub proof fn lemma_trim_end_append(a: Seq<char>, b: Seq<char>)
    requires
        exists|i: int| 0 <= i < b.len() && !is_ws(#[trigger] b[i]),
    ensures
        trim_end(a + b) == a + trim_end(b),
    decreases b.len(),
{
    let w = choose|i: int| 0 <= i < b.len() && !is_ws(#[trigger] b[i]);
    assert((a + b).last() == b.last());
    if is_ws(b.last()) {
        let d = b.drop_last();
        assert(d[w] == b[w]);
        lemma_trim_end_append(a, d);
        assert((a + b).drop_last() == a + d);
    }
}

/// Trimming the end first and then the start gives `trim`.
pub proof fn lemma_trim_commute(r: Seq<char>)
    ensures
        trim_start(trim_end(r)) == trim(r),
    decreases r.len(),
{
    if r.len() > 0 {
        let b = r.drop_first();
        lemma_trim_end_prefix(r);
        lemma_trim_end_prefix(b);
        lemma_trim_commute(b);
        assert(r == seq![r[0]] + b);
        if is_ws(r[0]) {
            if exists|i: int| 0 <= i < b.len() && !is_ws(#[trigger] b[i]) {
                lemma_trim_end_append(seq![r[0]], b);
                let te = trim_end(r);
                assert(te == seq![r[0]] + trim_end(b));
                assert(te.drop_first() == trim_end(b));
            } else {
                if trim_end(r).len() > 0 {
                    let k = trim_end(r).len() - 1;
                    assert(trim_end(r).last() == r[k]);
                    if k > 0 {
                        assert(r[k] == b[k - 1]);
                    }
                }
                if trim_end(b).len() > 0 {
                    let k = trim_end(b).len() - 1;
                    assert(trim_end(b).last() == b[k]);
                }
                assert(trim_end(r).len() == 0);
                assert(trim_end(b).len() == 0);
            }
        } else {
            assert(0 < trim_end(r).len());
            assert(trim_end(r)[0] == r[0]);
        }
    }
}

/// `str::trim`.
pub open spec fn trim(s: Seq<char>) -> Seq<char> {
    trim_end(trim_start(s))
}

/// The index of the first character that is not white space (or the length).
pub fn trim_start_index(s: &Vec<char>) -> (i: usize)
    ensures
        i <= s.len(),
        trim_start(s@) == s@.skip(i as int),
{
    let mut i: usize = 0;
    assert(s@.skip(0) == s@);
    while i < s.len() && is_whitespace(s[i])
        invariant
            i <= s.len(),
            trim_start(s@) == trim_start(s@.skip(i as int)),
        decreases s.len() - i,
    {
        assert(s@.skip(i as int).drop_first() == s@.skip(i + 1));
        i += 1;
    }
    i
}

/// The index just past the last character that is not white space, at or
/// after `lo`.
pub fn trim_end_index(s: &Vec<char>, lo: usize) -> (j: usize)
    requires
        lo <= s.len(),
    ensures
        lo <= j <= s.len(),
        trim_end(s@.subrange(lo as int, s.len() as int)) == s@.subrange(lo as int, j as int),
{
    let mut j: usize = s.len();
    while j > lo && is_whitespace(s[j - 1])
        invariant
            lo <= j <= s.len(),
            trim_end(s@.subrange(lo as int, s.len() as int)) == trim_end(
                s@.subrange(lo as int, j as int),
            ),
        decreases j,
    {
        assert(s@.subrange(lo as int, j as int).drop_last() == s@.subrange(lo as int, j - 1));
        j -= 1;
    }
    j
}

/// The bounds of `trim(s)` inside `s`.
pub fn trim_bounds(s: &Vec<char>) -> (r: (usize, usize))
    ensures
        r.0 <= r.1 <= s.len(),
        trim(s@) == s@.subrange(r.0 as int, r.1 as int),
{
    let i: usize = trim_start_index(s);
    assert(s@.skip(i as int) == s@.subrange(i as int, s.len() as int));
    let j = trim_end_index(s, i);
    (i, j)
}

/// `trim(s)` as a new vector.
pub fn trim_vec(s: &Vec<char>) -> (r: Vec<char>)
    ensures
        r@ == trim(s@),
{
    let (i, j) = trim_bounds(s);
    subvec(s, i, j)
}


// ---------------------------------------------------------------------------
// Sequences of character vectors
// ---------------------------------------------------------------------------

/// The views of a sequence of character vectors.
pub open spec fn vv(v: Seq<Vec<char>>) -> Seq<Seq<char>> {
    v.map_values(|x: Vec<char>| x@)
}

pub proof fn lemma_vv_push(v: Seq<Vec<char>>, x: Vec<char>)
    ensures
        vv(v.push(x)) == vv(v).push(x@),
{
    assert(vv(v.push(x)) =~= vv(v).push(x@));
}

// ---------------------------------------------------------------------------
// Lower case
// ---------------------------------------------------------------------------

pub open spec fn all_ascii(s: Seq<char>) -> bool {
    forall|i: int| 0 <= i < s.len() ==> #[trigger] is_ascii(s[i])
}

/// What `str::to_lowercase` returns for a string that is not all ASCII.
pub uninterp spec fn unicode_lower(s: Seq<char>) -> Seq<char>;

/// `str::to_lowercase`: on ASCII text the letters are lowered one by one.
pub open spec fn lower(s: Seq<char>) -> Seq<char> {
    if all_ascii(s) {
        s.map_values(|c: char| ascii_lower(c))
    } else {
        unicode_lower(s)
    }
}

/// Calls `str::to_lowercase` (Unicode case mapping, with the final-sigma
/// rule); the result is named `unicode_lower` of the argument.
#[verifier::external_body]
fn std_to_lowercase(s: &str) -> (r: String)
    ensures
        r@ == unicode_lower(s@),
{
    s.to_lowercase()
}

/// `str::to_lowercase` on a vector of characters.
pub fn to_lower(s: &Vec<char>) -> (r: Vec<char>)
    ensures
        r@ == lower(s@),
{
    let mut r: Vec<char> = Vec::new();
    let mut i: usize = 0;
    while i < s.len()
        invariant
            i <= s.len(),
            r@ == s@.take(i as int).map_values(|c: char| ascii_lower(c)),
            all_ascii(s@.take(i as int)),
        decreases s.len() - i,
    {
        let c = s[i];
        if (c as u32) >= 128 {
            let st = string_of(s.as_slice());
            let lowered = std_to_lowercase(st.as_str());
            assert(!all_ascii(s@)) by {
                assert(!is_ascii(s@[i as int]));
            }
            return chars_of(lowered.as_str());
        }
        r.push(to_ascii_lower(c));
        assert(s@.take(i + 1).map_values(|c: char| ascii_lower(c)) =~= s@.take(i as int).map_values(
            |c: char| ascii_lower(c),
        ).push(ascii_lower(c)));
        assert(all_ascii(s@.take(i + 1))) by {
            assert forall|k: int| 0 <= k < i + 1 implies #[trigger] is_ascii(s@.take(i + 1)[k]) by {
                if k < i {
                    assert(s@.take(i + 1)[k] == s@.take(i as int)[k]);
                }
            }
        }
        i += 1;
    }
    assert(s@.take(s.len() as int) == s@);
    r
}

// ---------------------------------------------------------------------------
// Lines
// ---------------------------------------------------------------------------

/// Drops one trailing carriage return.
pub open spec fn strip_cr(s: Seq<char>) -> Seq<char> {
    if s.len() > 0 && s.last() == '\r' {
        s.drop_last()
    } else {
        s
    }
}

/// Lines finished so far, and the current unfinished line.
pub open spec fn lines_state(s: Seq<char>) -> (Seq<Seq<char>>, Seq<char>)
    decreases s.len(),
{
    if s.len() == 0 {
        (Seq::empty(), Seq::empty())
    } else {
        let (done, cur) = lines_state(s.drop_last());
        if s.last() == '\n' {
            (done.push(strip_cr(cur)), Seq::empty())
        } else {
            (done, cur.push(s.last()))
        }
    }
}

/// `str::lines`: split at `\n`, a `\r` just before a `\n` dropped, and no
/// empty last line after a final `\n`.
pub open spec fn lines(s: Seq<char>) -> Seq<Seq<char>> {
    let (done, cur) = lines_state(s);
    if cur.len() > 0 {
        done.push(cur)
    } else {
        done
    }
}

pub fn lines_of(s: &Vec<char>) -> (r: Vec<Vec<char>>)
    ensures
        vv(r@) == lines(s@),
{
    let mut done: Vec<Vec<char>> = Vec::new();
    let mut cur: Vec<char> = Vec::new();
    let mut i: usize = 0;
    while i < s.len()
        invariant
            i <= s.len(),
            (vv(done@), cur@) == lines_state(s@.take(i as int)),
        decreases s.len() - i,
    {
        assert(s@.take(i + 1).drop_last() == s@.take(i as int));
        let c = s[i];
        if c == '\n' {
            if cur.len() > 0 && cur[cur.len() - 1] == '\r' {
                cur.pop();
            }
            proof {
                lemma_vv_push(done@, cur);
            }
            done.push(cur);
            cur = Vec::new();
        } else {
            cur.push(c);
        }
        i += 1;
    }
    assert(s@.take(s.len() as int) == s@);
    if cur.len() > 0 {
        proof {
            lemma_vv_push(done@, cur);
        }
        done.push(cur);
    }
    done
}

// ---------------------------------------------------------------------------
// Searching
// ---------------------------------------------------------------------------

/// `pat` occurs in `s` at index `i`.
pub open spec fn occurs_at(s: Seq<char>, pat: Seq<char>, i: int) -> bool {
    0 <= i && i + pat.len() <= s.len() && s.subrange(i, i + pat.len()) == pat
}

/// The first index at or after `i` where `pat` occurs.
pub open spec fn find_from(s: Seq<char>, pat: Seq<char>, i: int) -> Option<int>
    decreases s.len() + 1 - i,
{
    if i < 0 || i + pat.len() > s.len() {
        None
    } else if occurs_at(s, pat, i) {
        Some(i)
    } else {
        find_from(s, pat, i + 1)
    }
}

/// `str::find` with a string pattern: the first occurrence.
pub open spec fn find(s: Seq<char>, pat: Seq<char>) -> Option<int> {
    find_from(s, pat, 0)
}

/// The last index at or before `i` where `pat` occurs.
pub open spec fn rfind_upto(s: Seq<char>, pat: Seq<char>, i: int) -> Option<int>
    decreases i + 1,
{
    if i < 0 {
        None
    } else if occurs_at(s, pat, i) {
        Some(i)
    } else {
        rfind_upto(s, pat, i - 1)
    }
}

/// `str::rfind` with a string pattern: the last occurrence.
pub open spec fn rfind(s: Seq<char>, pat: Seq<char>) -> Option<int> {
    rfind_upto(s, pat, s.len() - pat.len())
}

pub proof fn lemma_find_bounds(s: Seq<char>, pat: Seq<char>, i: int)
    ensures
        match find_from(s, pat, i) {
            Some(j) => i <= j && j + pat.len() <= s.len(),
            None => true,
        },
    decreases s.len() + 1 - i,
{
    if !(i < 0 || i + pat.len() > s.len()) && !occurs_at(s, pat, i) {
        lemma_find_bounds(s, pat, i + 1);
    }
}

pub proof fn lemma_rfind_bounds(s: Seq<char>, pat: Seq<char>, i: int)
    ensures
        match rfind_upto(s, pat, i) {
            Some(j) => 0 <= j <= i && j + pat.len() <= s.len(),
            None => true,
        },
    decreases i + 1,
{
    if i >= 0 && !occurs_at(s, pat, i) {
        lemma_rfind_bounds(s, pat, i - 1);
    }
}

pub fn occurs_at_exec(s: &Vec<char>, pat: &Vec<char>, i: usize) -> (r: bool)
    requires
        i <= s.len(),
    ensures
        r == occurs_at(s@, pat@, i as int),
{
    if pat.len() > s.len() - i {
        return false;
    }
    let mut k: usize = 0;
    while k < pat.len()
        invariant
            k <= pat.len(),
            i + pat.len() <= s.len(),
            s@.subrange(i as int, i + k) == pat@.take(k as int),
        decreases pat.len() - k,
    {
        if s[i + k] != pat[k] {
            assert(s@.subrange(i as int, i + pat.len())[k as int] != pat@[k as int]);
            return false;
        }
        assert(s@.subrange(i as int, i + k + 1) == s@.subrange(i as int, i + k).push(s@[i + k]));
        assert(pat@.take(k + 1) == pat@.take(k as int).push(pat@[k as int]));
        k += 1;
    }
    assert(pat@.take(pat.len() as int) == pat@);
    true
}

pub fn find_exec(s: &Vec<char>, pat: &Vec<char>) -> (r: Option<usize>)
    ensures
        match r {
            Some(i) => find(s@, pat@) == Some(i as int),
            None => find(s@, pat@) is None,
        },
{
    if pat.len() > s.len() {
        return None;
    }
    let last: usize = s.len() - pat.len();
    let mut i: usize = 0;
    loop
        invariant
            i <= last,
            last + pat.len() == s.len(),
            find(s@, pat@) == find_from(s@, pat@, i as int),
        decreases last - i,
    {
        if occurs_at_exec(s, pat, i) {
            return Some(i);
        }
        if i == last {
            return None;
        }
        i += 1;
    }
}

pub fn rfind_exec(s: &Vec<char>, pat: &Vec<char>) -> (r: Option<usize>)
    ensures
        match r {
            Some(i) => rfind(s@, pat@) == Some(i as int),
            None => rfind(s@, pat@) is None,
        },
{
    if pat.len() > s.len() {
        return None;
    }
    let mut i: usize = s.len() - pat.len();
    loop
        invariant
            i + pat.len() <= s.len(),
            rfind(s@, pat@) == rfind_upto(s@, pat@, i as int),
        decreases i,
    {
        if occurs_at_exec(s, pat, i) {
            return Some(i);
        }
        if i == 0 {
            assert(rfind_upto(s@, pat@, -1) is None);
            return None;
        }
        i -= 1;
    }
}

// ---------------------------------------------------------------------------
// Splitting
// ---------------------------------------------------------------------------

/// Which characters form the runs that `runs` collects.
#[derive(Clone, Copy, PartialEq, Eq, Debug)]
pub enum RunKind {
    /// Everything but white space: the pieces of `str::split_whitespace`.
    NotSpace,
    /// Letters, digits and `'`: the words of a caption line.
    WordChar,
}

pub open spec fn is_word_char(c: char) -> bool {
    is_alnum(c) || c == '\''
}

pub open spec fn in_run(k: RunKind, c: char) -> bool {
    match k {
        RunKind::NotSpace => !is_ws(c),
        RunKind::WordChar => is_word_char(c),
    }
}

pub fn in_run_exec(k: RunKind, c: char) -> (r: bool)
    ensures
        r == in_run(k, c),
{
    match k {
        RunKind::NotSpace => !is_whitespace(c),
        RunKind::WordChar => is_alphanumeric(c) || c == '\'',
    }
}

/// Finished runs and the current run.
pub open spec fn runs_state(s: Seq<char>, k: RunKind) -> (Seq<Seq<char>>, Seq<char>)
    decreases s.len(),
{
    if s.len() == 0 {
        (Seq::empty(), Seq::empty())
    } else {
        let (done, cur) = runs_state(s.drop_last(), k);
        if in_run(k, s.last()) {
            (done, cur.push(s.last()))
        } else if cur.len() > 0 {
            (done.push(cur), Seq::empty())
        } else {
            (done, cur)
        }
    }
}

/// The maximal non-empty runs of characters of kind `k`, in order; for
/// `NotSpace` this is `str::split_whitespace`.
pub open spec fn runs(s: Seq<char>, k: RunKind) -> Seq<Seq<char>> {
    let (done, cur) = runs_state(s, k);
    if cur.len() > 0 {
        done.push(cur)
    } else {
        done
    }
}

pub fn runs_exec(s: &Vec<char>, k: RunKind) -> (r: Vec<Vec<char>>)
    ensures
        vv(r@) == runs(s@, k),
{
    let mut done: Vec<Vec<char>> = Vec::new();
    let mut cur: Vec<char> = Vec::new();
    let mut i: usize = 0;
    while i < s.len()
        invariant
            i <= s.len(),
            (vv(done@), cur@) == runs_state(s@.take(i as int), k),
        decreases s.len() - i,
    {
        assert(s@.take(i + 1).drop_last() == s@.take(i as int));
        let c = s[i];
        if in_run_exec(k, c) {
            cur.push(c);
        } else if cur.len() > 0 {
            proof {
                lemma_vv_push(done@, cur);
            }
            done.push(cur);
            cur = Vec::new();
        }
        i += 1;
    }
    assert(s@.take(s.len() as int) == s@);
    if cur.len() > 0 {
        proof {
            lemma_vv_push(done@, cur);
        }
        done.push(cur);
    }
    done
}

/// Finished pieces and the current piece of `str::split` at a character.
pub open spec fn split_state(s: Seq<char>, sep: char) -> (Seq<Seq<char>>, Seq<char>)
    decreases s.len(),
{
    if s.len() == 0 {
        (Seq::empty(), Seq::empty())
    } else {
        let (done, cur) = split_state(s.drop_last(), sep);
        if s.last() == sep {
            (done.push(cur), Seq::empty())
        } else {
            (done, cur.push(s.last()))
        }
    }
}

/// `str::split` at a character: the pieces between separators, empty
/// pieces included (one more piece than separators).
pub open spec fn split_at_char(s: Seq<char>, sep: char) -> Seq<Seq<char>> {
    let (done, cur) = split_state(s, sep);
    done.push(cur)
}

pub fn split_char_exec(s: &Vec<char>, sep: char) -> (r: Vec<Vec<char>>)
    ensures
        vv(r@) == split_at_char(s@, sep),
{
    let mut done: Vec<Vec<char>> = Vec::new();
    let mut cur: Vec<char> = Vec::new();
    let mut i: usize = 0;
    while i < s.len()
        invariant
            i <= s.len(),
            (vv(done@), cur@) == split_state(s@.take(i as int), sep),
        decreases s.len() - i,
    {
        assert(s@.take(i + 1).drop_last() == s@.take(i as int));
        let c = s[i];
        if c == sep {
            proof {
                lemma_vv_push(done@, cur);
            }
            done.push(cur);
            cur = Vec::new();
        } else {
            cur.push(c);
        }
        i += 1;
    }
    assert(s@.take(s.len() as int) == s@);
    proof {
        lemma_vv_push(done@, cur);
    }
    done.push(cur);
    done
}


// ---------------------------------------------------------------------------
// Trimming by a class of characters
// ---------------------------------------------------------------------------

/// Character classes that `str::trim_matches` and friends strip.
#[derive(Clone, Copy, PartialEq, Eq, Debug)]
pub enum Strip {
    /// Everything that is not a letter or digit.
    NonAlnum,
    /// Everything but letters, `'` and `-`.
    NonWordish,
    /// `/`.
    Slash,
    /// Closing quotes and brackets: `"` `'` `)` `]` `}`.
    Closers,
    /// Sentence punctuation: `.` `!` `?`.
    Terminal,
    /// `.`.
    Dot,
    /// `%`.
    Percent,
}

pub open spec fn strips(k: Strip, c: char) -> bool {
    match k {
        Strip::NonAlnum => !is_alnum(c),
        Strip::NonWordish => !is_alpha(c) && c != '\'' && c != '-',
        Strip::Slash => c == '/',
        Strip::Closers => c == '"' || c == '\'' || c == ')' || c == ']' || c == '}',
        Strip::Terminal => c == '.' || c == '!' || c == '?',
        Strip::Dot => c == '.',
        Strip::Percent => c == '%',
    }
}

pub fn strips_exec(k: Strip, c: char) -> (r: bool)
    ensures
        r == strips(k, c),
{
    match k {
        Strip::NonAlnum => !is_alphanumeric(c),
        Strip::NonWordish => !is_alphabetic(c) && c != '\'' && c != '-',
        Strip::Slash => c == '/',
        Strip::Closers => c == '"' || c == '\'' || c == ')' || c == ']' || c == '}',
        Strip::Terminal => c == '.' || c == '!' || c == '?',
        Strip::Dot => c == '.',
        Strip::Percent => c == '%',
    }
}

/// `str::trim_start_matches` with a class.
pub open spec fn strip_start(s: Seq<char>, k: Strip) -> Seq<char>
    decreases s.len(),
{
    if s.len() > 0 && strips(k, s[0]) {
        strip_start(s.drop_first(), k)
    } else {
        s
    }
}

/// `str::trim_end_matches` with a class.
pub open spec fn strip_end(s: Seq<char>, k: Strip) -> Seq<char>
    decreases s.len(),
{
    if s.len() > 0 && strips(k, s.last()) {
        strip_end(s.drop_last(), k)
    } else {
        s
    }
}

/// `str::trim_matches` with a class.
pub open spec fn strip_both(s: Seq<char>, k: Strip) -> Seq<char> {
    strip_end(strip_start(s, k), k)
}

pub fn strip_start_vec(s: &Vec<char>, k: Strip) -> (r: Vec<char>)
    ensures
        r@ == strip_start(s@, k),
{
    let mut i: usize = 0;
    assert(s@.skip(0) == s@);
    while i < s.len() && strips_exec(k, s[i])
        invariant
            i <= s.len(),
            strip_start(s@, k) == strip_start(s@.skip(i as int), k),
        decreases s.len() - i,
    {
        assert(s@.skip(i as int).drop_first() == s@.skip(i + 1));
        i += 1;
    }
    assert(s@.skip(i as int) == s@.subrange(i as int, s.len() as int));
    subvec(s, i, s.len())
}

pub fn strip_end_vec(s: &Vec<char>, k: Strip) -> (r: Vec<char>)
    ensures
        r@ == strip_end(s@, k),
{
    let mut j: usize = s.len();
    assert(s@.subrange(0, s.len() as int) == s@);
    while j > 0 && strips_exec(k, s[j - 1])
        invariant
            j <= s.len(),
            strip_end(s@, k) == strip_end(s@.subrange(0, j as int), k),
        decreases j,
    {
        assert(s@.subrange(0, j as int).drop_last() == s@.subrange(0, j - 1));
        j -= 1;
    }
    subvec(s, 0, j)
}

pub fn strip_both_vec(s: &Vec<char>, k: Strip) -> (r: Vec<char>)
    ensures
        r@ == strip_both(s@, k),
{
    let a = strip_start_vec(s, k);
    strip_end_vec(&a, k)
}

// ---------------------------------------------------------------------------
// Prefixes, suffixes, case-insensitive comparison
// ---------------------------------------------------------------------------

pub open spec fn starts_with(s: Seq<char>, p: Seq<char>) -> bool {
    p.len() <= s.len() && s.take(p.len() as int) == p
}

pub open spec fn ends_with(s: Seq<char>, p: Seq<char>) -> bool {
    p.len() <= s.len() && s.skip(s.len() - p.len()) == p
}

pub fn starts_with_exec(s: &Vec<char>, p: &Vec<char>) -> (r: bool)
    ensures
        r == starts_with(s@, p@),
{
    if p.len() > s.len() {
        return false;
    }
    let r = occurs_at_exec(s, p, 0);
    assert(s@.subrange(0, p.len() as int) == s@.take(p.len() as int));
    r
}

pub fn ends_with_exec(s: &Vec<char>, p: &Vec<char>) -> (r: bool)
    ensures
        r == ends_with(s@, p@),
{
    if p.len() > s.len() {
        return false;
    }
    let r = occurs_at_exec(s, p, s.len() - p.len());
    assert(s@.subrange(s.len() - p.len(), s.len() as int) == s@.skip(s.len() - p.len()));
    r
}

/// `str::eq_ignore_ascii_case`.
pub open spec fn eq_ignore_ascii_case(a: Seq<char>, b: Seq<char>) -> bool {
    a.len() == b.len() && forall|i: int| 0 <= i < a.len() ==> #[trigger] ascii_lower(a[i])
        == ascii_lower(b[i])
}

pub fn eq_ignore_ascii_case_exec(a: &Vec<char>, b: &Vec<char>) -> (r: bool)
    ensures
        r == eq_ignore_ascii_case(a@, b@),
{
    if a.len() != b.len() {
        return false;
    }
    let mut i: usize = 0;
    while i < a.len()
        invariant
            i <= a.len(),
            a.len() == b.len(),
            forall|k: int| 0 <= k < i ==> #[trigger] ascii_lower(a@[k]) == ascii_lower(b@[k]),
        decreases a.len() - i,
    {
        if to_ascii_lower(a[i]) != to_ascii_lower(b[i]) {
            return false;
        }
        i += 1;
    }
    true
}

/// `s` with ASCII letters lowered one by one.
pub open spec fn ascii_lowered(s: Seq<char>) -> Seq<char> {
    s.map_values(|c: char| ascii_lower(c))
}

pub fn ascii_lowered_vec(s: &Vec<char>) -> (r: Vec<char>)
    ensures
        r@ == ascii_lowered(s@),
{
    let mut r: Vec<char> = Vec::new();
    let mut i: usize = 0;
    while i < s.len()
        invariant
            i <= s.len(),
            r@ == ascii_lowered(s@.take(i as int)),
        decreases s.len() - i,
    {
        r.push(to_ascii_lower(s[i]));
        assert(ascii_lowered(s@.take(i + 1)) =~= ascii_lowered(s@.take(i as int)).push(
            ascii_lower(s@[i as int]),
        ));
        i += 1;
    }
    assert(s@.take(s.len() as int) == s@);
    r
}

/// Whether `s` holds the character `c`.
pub fn contains_char(s: &Vec<char>, c: char) -> (r: bool)
    ensures
        r == s@.contains(c),
{
    let mut i: usize = 0;
    while i < s.len()
        invariant
            i <= s.len(),
            forall|k: int| 0 <= k < i ==> s@[k] != c,
        decreases s.len() - i,
    {
        if s[i] == c {
            return true;
        }
        i += 1;
    }
    false
}

// ---------------------------------------------------------------------------
// Joining
// ---------------------------------------------------------------------------

/// `[T]::join` of strings with a separator.
pub open spec fn join(parts: Seq<Seq<char>>, sep: Seq<char>) -> Seq<char>
    decreases parts.len(),
{
    if parts.len() == 0 {
        Seq::empty()
    } else if parts.len() == 1 {
        parts[0]
    } else {
        join(parts.drop_last(), sep) + sep + parts.last()
    }
}

pub fn join_exec(parts: &Vec<Vec<char>>, sep: &Vec<char>) -> (r: Vec<char>)
    ensures
        r@ == join(vv(parts@), sep@),
{
    let mut r: Vec<char> = Vec::new();
    let mut i: usize = 0;
    while i < parts.len()
        invariant
            i <= parts.len(),
            r@ == join(vv(parts@).take(i as int), sep@),
        decreases parts.len() - i,
    {
        let ghost pv = vv(parts@);
        assert(pv.take(i + 1).drop_last() == pv.take(i as int));
        assert(pv.take(i + 1).last() == parts@[i as int]@);
        if i > 0 {
            push_all(&mut r, sep);
        } else {
            assert(pv.take(1) =~= seq![parts@[0]@]);
        }
        push_all(&mut r, &parts[i]);
        i += 1;
    }
    assert(vv(parts@).take(parts.len() as int) == vv(parts@));
    r
}


// ---------------------------------------------------------------------------
// UTF-8 length
// ---------------------------------------------------------------------------

/// `char::len_utf8`.
pub open spec fn char_utf8_len(c: char) -> nat {
    let u = c as u32;
    if u < 0x80 {
        1
    } else if u < 0x800 {
        2
    } else if u < 0x10000 {
        3
    } else {
        4
    }
}

/// The length of the UTF-8 form of a text in bytes (`str::len`).
pub open spec fn utf8_len(s: Seq<char>) -> nat
    decreases s.len(),
{
    if s.len() == 0 {
        0
    } else {
        utf8_len(s.drop_last()) + char_utf8_len(s.last())
    }
}

pub proof fn lemma_utf8_len_bounds(s: Seq<char>)
    ensures
        s.len() <= utf8_len(s) <= 4 * s.len(),
    decreases s.len(),
{
    if s.len() > 0 {
        lemma_utf8_len_bounds(s.drop_last());
    }
}

/// The UTF-8 length of a text in bytes.
pub fn utf8_len_exec(s: &Vec<char>) -> (r: u128)
    ensures
        r as nat == utf8_len(s@),
{
    let mut n: u128 = 0;
    let mut i: usize = 0;
    while i < s.len()
        invariant
            i <= s.len(),
            n as nat == utf8_len(s@.take(i as int)),
            n <= 4 * i,
        decreases s.len() - i,
    {
        assert(s@.take(i + 1).drop_last() == s@.take(i as int));
        let u = s[i] as u32;
        let k: u128 = if u < 0x80 {
            1
        } else if u < 0x800 {
            2
        } else if u < 0x10000 {
            3
        } else {
            4
        };
        n = n + k;
        i += 1;
    }
    assert(s@.take(s.len() as int) == s@);
    n
}


pub proof fn lemma_utf8_len_add(a: Seq<char>, b: Seq<char>)
    ensures
        utf8_len(a + b) == utf8_len(a) + utf8_len(b),
    decreases b.len(),
{
    if b.len() > 0 {
        lemma_utf8_len_add(a, b.drop_last());
        assert((a + b).drop_last() == a + b.drop_last());
        assert((a + b).last() == b.last());
    } else {
        assert(a + b == a);
    }
}

/// The byte offsets of character boundaries grow with the character index,
/// by at least one byte a character.
pub proof fn lemma_utf8_take_mono(s: Seq<char>, i: int, j: int)
    requires
        0 <= i <= j <= s.len(),
    ensures
        utf8_len(s.take(i)) + (j - i) <= utf8_len(s.take(j)),
{
    assert(s.take(j) == s.take(i) + s.subrange(i, j));
    lemma_utf8_len_add(s.take(i), s.subrange(i, j));
    lemma_utf8_len_bounds(s.subrange(i, j));
}

/// Byte offset `b` of `s` as a character index, from index `i` on: the index
/// whose prefix is `b` bytes long, or none when `b` falls inside a character
/// or past the end.
pub open spec fn char_at_byte_from(s: Seq<char>, b: int, i: int) -> Option<int>
    decreases s.len() + 1 - i,
{
    if i < 0 || i > s.len() {
        None
    } else if utf8_len(s.take(i)) == b {
        Some(i)
    } else if utf8_len(s.take(i)) > b {
        None
    } else {
        char_at_byte_from(s, b, i + 1)
    }
}

/// Byte offset `b` of `s` as a character index, when it is a character
/// boundary (where `&s[..b]` and `&s[b..]` do not panic).
pub open spec fn char_at_byte(s: Seq<char>, b: int) -> Option<int> {
    char_at_byte_from(s, b, 0)
}

pub proof fn lemma_char_at_byte_from(s: Seq<char>, b: int, i: int)
    requires
        0 <= i,
    ensures
        match char_at_byte_from(s, b, i) {
            Some(j) => i <= j <= s.len() && utf8_len(s.take(j)) == b,
            None => forall|k: int| i <= k <= s.len() ==> #[trigger] utf8_len(s.take(k)) != b,
        },
    decreases s.len() + 1 - i,
{
    if i <= s.len() && utf8_len(s.take(i)) != b {
        if utf8_len(s.take(i)) > b {
            assert forall|k: int| i <= k <= s.len() implies #[trigger] utf8_len(s.take(k)) != b by {
                lemma_utf8_take_mono(s, i, k);
            }
        } else {
            lemma_char_at_byte_from(s, b, i + 1);
        }
    }
}

/// Byte offset `b` of `s` as a character index: see `char_at_byte`.
pub fn char_at_byte_exec(s: &Vec<char>, b: u128) -> (r: Option<usize>)
    ensures
        match r {
            Some(j) => char_at_byte(s@, b as int) == Some(j as int),
            None => char_at_byte(s@, b as int) is None,
        },
{
    let mut n: u128 = 0;
    let mut i: usize = 0;
    loop
        invariant
            i <= s.len(),
            n as nat == utf8_len(s@.take(i as int)),
            n <= 4 * i,
            char_at_byte(s@, b as int) == char_at_byte_from(s@, b as int, i as int),
        decreases s.len() - i,
    {
        if n == b {
            return Some(i);
        }
        if n > b {
            return None;
        }
        if i == s.len() {
            assert(char_at_byte_from(s@, b as int, i as int + 1) is None);
            return None;
        }
        assert(s@.take(i + 1).drop_last() == s@.take(i as int));
        let u = s[i] as u32;
        let k: u128 = if u < 0x80 {
            1
        } else if u < 0x800 {
            2
        } else if u < 0x10000 {
            3
        } else {
            4
        };
        n = n + k;
        i += 1;
    }
}

} // verus!
