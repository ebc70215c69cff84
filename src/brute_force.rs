//! The word-by-word filter: each pair of words is compared directly.
use vstd::prelude::*;

use crate::letters::{dominated, freq, get_frequency_vector, is_dominated_by, is_word, same_counts};
use crate::survivors::{all_words, plain_survivors, survives_plain, words_of};

verus! {

/// Whether the two words hold the same letters.
pub fn is_anagram(word1: &str, word2: &str) -> (r: bool)
    requires
        is_word(word1@),
        is_word(word2@),
    ensures
        r == (freq(word1@) == freq(word2@)),
{
    let f1 = get_frequency_vector(word1);
    let f2 = get_frequency_vector(word2);
    same_counts(&f1, &f2)
}

/// Whether every letter of `smaller` occurs at least as often in `larger`, and
/// `larger` holds more letters.
pub fn is_sub_anagram(smaller: &str, larger: &str) -> (r: bool)
    requires
        is_word(smaller@),
        is_word(larger@),
    ensures
        r == dominated(freq(smaller@), freq(larger@)),
{
    let fs = get_frequency_vector(smaller);
    let fl = get_frequency_vector(larger);
    is_dominated_by(&fs, &fl)
}

/// Keeps, in list order, each word that no other word of the list is an anagram
/// of, and that no word of the list dominates.
pub fn remove_anagrams_and_sub_anagrams_brute_force(words: &[String]) -> (r: Vec<String>)
    requires
        all_words(words_of(words@)),
    ensures
        words_of(r@) == plain_survivors(words_of(words@), words@.len() as int),
{
    let ghost ws = words_of(words@);
    if words.len() == 0 {
        let r: Vec<String> = Vec::new();
        assert(words_of(r@) =~= plain_survivors(ws, 0));
        return r;
    }
    let n = words.len();
    let mut kept: Vec<String> = Vec::new();
    let mut i: usize = 0;
    while i < n
        invariant
            ws == words_of(words@),
            all_words(ws),
            n == words@.len(),
            0 <= i <= n,
            words_of(kept@) == plain_survivors(ws, i as int),
        decreases n - i,
    {
        let mut remove = false;
        let mut j: usize = 0;
        assert(ws[i as int] == words@[i as int]@);
        while j < n && !remove
            invariant
                ws == words_of(words@),
                all_words(ws),
                n == words@.len(),
                0 <= i < n,
                0 <= j <= n,
                !remove ==> forall|k: int|
                    0 <= k < j ==> (k == i || #[trigger] freq(ws[k]) != freq(ws[i as int]))
                        && !dominated(freq(ws[i as int]), freq(ws[k])),
                remove ==> !survives_plain(ws, i as int),
            decreases n - j,
        {
            assert(ws[j as int] == words@[j as int]@);
            assert(ws[i as int] == words@[i as int]@);
            assert(is_word(ws[i as int]) && is_word(ws[j as int]));
            if i != j {
                if is_anagram(words[i].as_str(), words[j].as_str()) {
                    remove = true;
                } else if is_sub_anagram(words[i].as_str(), words[j].as_str()) {
                    remove = true;
                }
            } else {
                assert(!dominated(freq(ws[i as int]), freq(ws[j as int])));
            }
            j = j + 1;
        }
        if !remove {
            kept.push(words[i].clone());
        }
        proof {
            let s = plain_survivors(ws, i as int);
            if survives_plain(ws, i as int) {
                assert(words_of(kept@) =~= s.push(ws[i as int]));
            } else {
                assert(words_of(kept@) =~= s);
            }
        }
        i = i + 1;
    }
    kept
}

} // verus!
