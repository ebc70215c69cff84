//! Removes from a list of lowercase words every word that has an anagram in the
//! list and every word whose letters another word holds with some to spare.
use vstd::prelude::*;

pub mod bitset;
pub mod brute_force;
pub mod grouping;
pub mod laws;
pub mod letters;
pub mod pairwise;
pub mod survivors;

use crate::bitset::remove_anagrams_and_sub_anagrams_bitset;
use crate::brute_force::remove_anagrams_and_sub_anagrams_brute_force;
use crate::letters::{is_lower, is_word};
use crate::pairwise::remove_anagrams_and_sub_anagrams_pairwise;
use crate::survivors::{all_words, plain_survivors, survivors, words_of};

verus! {

/// The ways of filtering a word list.
#[derive(Clone, Copy, Debug, PartialEq, Eq)]
pub enum Strategy {
    /// Compare every pair of words directly.
    BruteForce,
    /// Group by frequency vector, then compare every pair of candidates.
    PairwiseVector,
    /// Group, take candidates longest first, and probe an index by letter and count.
    IndexedBucket,
}

/// Why a word list cannot be filtered.
#[derive(Clone, Copy, Debug, PartialEq, Eq)]
pub enum FilterError {
    /// A word holds a character outside 'a' to 'z'.
    InvalidCharacter,
}

/// What `strategy` returns for `words`: the word-by-word survivors in list
/// order, the grouped survivors in list order, or the grouped survivors each
/// once in some order, longest first.
pub open spec fn filtered_by(strategy: Strategy, words: Seq<String>, r: Seq<String>) -> bool {
    let ws = words_of(words);
    let n = words.len() as int;
    match strategy {
        Strategy::BruteForce => words_of(r) == plain_survivors(ws, n),
        Strategy::PairwiseVector => words_of(r) == survivors(ws, n),
        Strategy::IndexedBucket => {
            &&& words_of(r).no_duplicates()
            &&& forall|w: Seq<char>| #[trigger] words_of(r).contains(w) <==> survivors(ws, n).contains(w)
            &&& forall|a: int, b: int| 0 <= a < b < r.len() ==> #[trigger] r[a]@.len() >= #[trigger] r[b]@.len()
        },
    }
}

/// Whether every word is made of lowercase letters only.
pub fn words_valid(words: &[String]) -> (r: bool)
    ensures
        r == all_words(words_of(words@)),
{
    let ghost ws = words_of(words@);
    let mut i: usize = 0;
    while i < words.len()
        invariant
            ws == words_of(words@),
            0 <= i <= words@.len(),
            forall|k: int| 0 <= k < i ==> is_word(#[trigger] ws[k]),
        decreases words@.len() - i,
    {
        let s = words[i].as_str();
        assert(s@ == ws[i as int]);
        if !s.is_ascii() {
            proof {
                let w = ws[i as int];
                let j = choose|j: int| !(0 <= j < w.len() ==> '\0' <= #[trigger] w[j] <= '\u{7f}');
                assert(!is_lower(w[j]));
            }
            return false;
        }
        proof {
            vstd::utf8::is_ascii_chars_encode_utf8(s@);
        }
        let bytes = s.as_bytes();
        let mut j: usize = 0;
        while j < bytes.len()
            invariant
                ws == words_of(words@),
                0 <= i < words@.len(),
                s@ == ws[i as int],
                bytes@.len() == s@.len(),
                forall|m: int| 0 <= m < bytes@.len() ==> bytes@[m] == #[trigger] s@[m] as u8,
                forall|m: int| 0 <= m < s@.len() ==> '\0' <= #[trigger] s@[m] <= '\u{7f}',
                0 <= j <= bytes@.len(),
                forall|m: int| 0 <= m < j ==> is_lower(#[trigger] s@[m]),
            decreases bytes@.len() - j,
        {
            let b = bytes[j];
            if b < 97 || b > 122 {
                assert(!is_lower(s@[j as int]));
                return false;
            }
            j = j + 1;
        }
        i = i + 1;
    }
    true
}

/// Filters `words` with the chosen strategy.
pub fn filter_duplicates_and_subsets(words: &[String], strategy: Strategy) -> (r: Vec<String>)
    requires
        all_words(words_of(words@)),
    ensures
        filtered_by(strategy, words@, r@),
{
    match strategy {
        Strategy::BruteForce => remove_anagrams_and_sub_anagrams_brute_force(words),
        Strategy::PairwiseVector => remove_anagrams_and_sub_anagrams_pairwise(words),
        Strategy::IndexedBucket => remove_anagrams_and_sub_anagrams_bitset(words),
    }
}

/// Filters `words` with the chosen strategy, or reports a character outside
/// 'a' to 'z'.
pub fn try_filter(words: &[String], strategy: Strategy) -> (r: Result<Vec<String>, FilterError>)
    ensures
        r is Err <==> !all_words(words_of(words@)),
        r is Err ==> r == Err::<Vec<String>, FilterError>(FilterError::InvalidCharacter),
        r matches Ok(v) ==> filtered_by(strategy, words@, v@),
{
    if !words_valid(words) {
        return Err(FilterError::InvalidCharacter);
    }
    Ok(filter_duplicates_and_subsets(words, strategy))
}

} // verus!
