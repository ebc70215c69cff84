//! Frequency vectors of a word list and the words that have no anagram in it.
use vstd::prelude::*;

use crate::letters::{counts, freq, get_frequency_vector, same_counts};
use crate::survivors::{all_words, is_candidate, words_of};

verus! {

/// The frequency vectors of `words` are `fs`, one for each word.
pub open spec fn vectors_of(ws: Seq<Seq<char>>, fs: Seq<[usize; 26]>) -> bool {
    fs.len() == ws.len() && forall|i: int| 0 <= i < fs.len() ==> #[trigger] counts(fs[i]) == freq(ws[i])
}

/// The frequency vector of every word, in list order.
pub fn frequency_vectors(words: &[String]) -> (r: Vec<[usize; 26]>)
    requires
        all_words(words_of(words@)),
    ensures
        vectors_of(words_of(words@), r@),
{
    let ghost ws = words_of(words@);
    let mut r: Vec<[usize; 26]> = Vec::new();
    let mut i: usize = 0;
    while i < words.len()
        invariant
            ws == words_of(words@),
            all_words(ws),
            0 <= i <= words@.len(),
            r@.len() == i,
            forall|k: int| 0 <= k < i ==> #[trigger] counts(r@[k]) == freq(ws[k]),
        decreases words@.len() - i,
    {
        assert(ws[i as int] == words@[i as int]@);
        let f = get_frequency_vector(words[i].as_str());
        r.push(f);
        i = i + 1;
    }
    r
}

/// For each word, whether it is the only one with its letters.
pub fn unique_flags(words: &[String], fs: &Vec<[usize; 26]>) -> (r: Vec<bool>)
    requires
        vectors_of(words_of(words@), fs@),
    ensures
        r@.len() == words@.len(),
        forall|i: int| 0 <= i < r@.len() ==> #[trigger] r@[i] == is_candidate(words_of(words@), i),
{
    let ghost ws = words_of(words@);
    let n = fs.len();
    let mut r: Vec<bool> = Vec::new();
    let mut i: usize = 0;
    while i < n
        invariant
            ws == words_of(words@),
            vectors_of(words_of(words@), fs@),
            n == fs@.len(),
            0 <= i <= n,
            r@.len() == i,
            forall|k: int| 0 <= k < i ==> #[trigger] r@[k] == is_candidate(ws, k),
        decreases n - i,
    {
        let mut alone = true;
        let mut j: usize = 0;
        while j < n
            invariant
                ws == words_of(words@),
                vectors_of(words_of(words@), fs@),
                n == fs@.len(),
                0 <= i < n,
                0 <= j <= n,
                alone == forall|k: int| 0 <= k < j && k != i ==> #[trigger] freq(ws[k]) != freq(ws[i as int]),
            decreases n - j,
        {
            if j != i && same_counts(&fs[j], &fs[i]) {
                assert(counts(fs@[j as int]) == freq(ws[j as int]));
                assert(counts(fs@[i as int]) == freq(ws[i as int]));
                alone = false;
            } else if j != i {
                assert(counts(fs@[j as int]) == freq(ws[j as int]));
                assert(counts(fs@[i as int]) == freq(ws[i as int]));
            }
            j = j + 1;
        }
        r.push(alone);
        i = i + 1;
    }
    r
}

} // verus!
