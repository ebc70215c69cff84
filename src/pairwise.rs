//! Grouping by frequency vector, then comparing every pair of candidates.
use vstd::prelude::*;

use crate::grouping::{frequency_vectors, unique_flags, vectors_of};
use crate::letters::{counts, dominated, freq, is_dominated_by};
use crate::survivors::{all_words, is_candidate, survives, survivors, words_of};

verus! {

/// Keeps, in list order, each word that has no anagram in the list and that no
/// other such word dominates.
pub fn remove_anagrams_and_sub_anagrams_pairwise(words: &[String]) -> (r: Vec<String>)
    requires
        all_words(words_of(words@)),
    ensures
        words_of(r@) == survivors(words_of(words@), words@.len() as int),
{
    let ghost ws = words_of(words@);
    if words.len() == 0 {
        let r: Vec<String> = Vec::new();
        assert(words_of(r@) =~= survivors(ws, 0));
        return r;
    }
    let fs = frequency_vectors(words);
    let flags = unique_flags(words, &fs);
    let n = words.len();
    let mut maximal: Vec<String> = Vec::new();
    let mut i: usize = 0;
    while i < n
        invariant
            ws == words_of(words@),
            n == words@.len(),
            vectors_of(ws, fs@),
            flags@.len() == n,
            forall|k: int| 0 <= k < n ==> #[trigger] flags@[k] == is_candidate(ws, k),
            0 <= i <= n,
            words_of(maximal@) == survivors(ws, i as int),
        decreases n - i,
    {
        if flags[i] {
            let mut is_dominated = false;
            let mut j: usize = 0;
            while j < n && !is_dominated
                invariant
                    ws == words_of(words@),
                    n == words@.len(),
                    vectors_of(ws, fs@),
                    flags@.len() == n,
                    forall|k: int| 0 <= k < n ==> #[trigger] flags@[k] == is_candidate(ws, k),
                    0 <= i < n,
                    0 <= j <= n,
                    !is_dominated ==> forall|k: int|
                        0 <= k < j && is_candidate(ws, k) ==> !dominated(
                            freq(ws[i as int]),
                            #[trigger] freq(ws[k]),
                        ),
                    is_dominated ==> exists|k: int|
                        0 <= k < n && is_candidate(ws, k) && dominated(
                            freq(ws[i as int]),
                            #[trigger] freq(ws[k]),
                        ),
                decreases n - j,
            {
                assert(counts(fs@[j as int]) == freq(ws[j as int]));
                assert(counts(fs@[i as int]) == freq(ws[i as int]));
                if flags[j] && is_dominated_by(&fs[i], &fs[j]) {
                    is_dominated = true;
                }
                j = j + 1;
            }
            if !is_dominated {
                maximal.push(words[i].clone());
            }
        }
        proof {
            let s = survivors(ws, i as int);
            if survives(ws, i as int) {
                assert(words_of(maximal@) =~= s.push(ws[i as int]));
            } else {
                assert(words_of(maximal@) =~= s);
            }
        }
        i = i + 1;
    }
    maximal
}

} // verus!
