//! ECDICT dictionary rows and the spellings tried for a word.

use vstd::prelude::*;
use crate::text::{chars_eq, chars_of, lower, string_of, to_lower};

verus! {

/// One ECDICT row.
#[derive(Debug, Clone)]
pub struct DictEntry {
    pub word: String,
    pub phonetic: Option<String>,
    pub definition: Option<String>,
    pub translation: Option<String>,
    pub pos: Option<String>,
    pub tag: Option<String>,
    pub exchange: Option<String>,
    pub collins: Option<i64>,
    pub bnc: Option<i64>,
    pub frq: Option<i64>,
}

/// The spellings looked up, in order: the word as given, then its lower
/// case when that differs.
pub open spec fn lookup_candidates_spec(word: Seq<char>) -> Seq<Seq<char>> {
    if lower(word) != word {
        seq![word, lower(word)]
    } else {
        seq![word]
    }
}

/// The spellings to look up: see `lookup_candidates_spec`.
pub fn lookup_candidates(word: &str) -> (r: Vec<String>)
    ensures
        r@.map_values(|s: String| s@) == lookup_candidates_spec(word@),
{
    let w = chars_of(word);
    let l = to_lower(&w);
    let mut r: Vec<String> = Vec::new();
    r.push(string_of(w.as_slice()));
    if !chars_eq(&l, &w) {
        r.push(string_of(l.as_slice()));
    }
    assert(r@.map_values(|s: String| s@) =~= lookup_candidates_spec(word@));
    r
}

} // verus!
