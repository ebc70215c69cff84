//! Which words of a list survive the filter, stated over the list's letters.
use vstd::prelude::*;

use crate::letters::{dominated, freq, is_word};

verus! {

/// The letters of each word of a list.
pub open spec fn words_of(words: Seq<String>) -> Seq<Seq<char>> {
    words.map_values(|s: String| s@)
}

/// Every word of the list is made of lowercase letters.
pub open spec fn all_words(ws: Seq<Seq<char>>) -> bool {
    forall|i: int| 0 <= i < ws.len() ==> is_word(#[trigger] ws[i])
}

/// Another word of the list is an anagram of the word at `i`.
pub open spec fn has_anagram(ws: Seq<Seq<char>>, i: int) -> bool {
    exists|j: int| 0 <= j < ws.len() && j != i && #[trigger] freq(ws[j]) == freq(ws[i])
}

/// The word at `i` is the only one with its letters.
pub open spec fn is_candidate(ws: Seq<Seq<char>>, i: int) -> bool {
    !has_anagram(ws, i)
}

/// Some word of the list dominates the word at `i`.
pub open spec fn dominated_by_word(ws: Seq<Seq<char>>, i: int) -> bool {
    exists|j: int| 0 <= j < ws.len() && dominated(freq(ws[i]), #[trigger] freq(ws[j]))
}

/// Some candidate of the list dominates the word at `i`.
pub open spec fn dominated_by_candidate(ws: Seq<Seq<char>>, i: int) -> bool {
    exists|j: int|
        0 <= j < ws.len() && is_candidate(ws, j) && dominated(freq(ws[i]), #[trigger] freq(ws[j]))
}

/// Word-by-word rule: the word at `i` has no anagram and no word of the list dominates it.
pub open spec fn survives_plain(ws: Seq<Seq<char>>, i: int) -> bool {
    is_candidate(ws, i) && !dominated_by_word(ws, i)
}

/// Grouped rule: the word at `i` is a candidate and no candidate dominates it.
pub open spec fn survives(ws: Seq<Seq<char>>, i: int) -> bool {
    is_candidate(ws, i) && !dominated_by_candidate(ws, i)
}

/// The words among the first `n` that survive by the word-by-word rule, in list order.
pub open spec fn plain_survivors(ws: Seq<Seq<char>>, n: int) -> Seq<Seq<char>>
    decreases n,
{
    if n <= 0 {
        Seq::empty()
    } else if survives_plain(ws, n - 1) {
        plain_survivors(ws, n - 1).push(ws[n - 1])
    } else {
        plain_survivors(ws, n - 1)
    }
}

/// The words among the first `n` that survive by the grouped rule, in list order.
pub open spec fn survivors(ws: Seq<Seq<char>>, n: int) -> Seq<Seq<char>>
    decreases n,
{
    if n <= 0 {
        Seq::empty()
    } else if survives(ws, n - 1) {
        survivors(ws, n - 1).push(ws[n - 1])
    } else {
        survivors(ws, n - 1)
    }
}

/// A word is among the grouped survivors exactly when some surviving position holds it.
pub proof fn lemma_survivors_contains(ws: Seq<Seq<char>>, n: int, w: Seq<char>)
    requires
        0 <= n <= ws.len(),
    ensures
        survivors(ws, n).contains(w) <==> exists|i: int| 0 <= i < n && survives(ws, i) && ws[i] == w,
    decreases n,
{
    if n > 0 {
        lemma_survivors_contains(ws, n - 1, w);
        let s = survivors(ws, n - 1);
        if survives(ws, n - 1) {
            assert(s.push(ws[n - 1])[s.len() as int] == ws[n - 1]);
            if s.push(ws[n - 1]).contains(w) && w != ws[n - 1] {
                let t = s.push(ws[n - 1]);
                let k = choose|k: int| 0 <= k < t.len() && #[trigger] t[k] == w;
                assert(s[k] == w);
            }
            if s.contains(w) {
                let k = choose|k: int| 0 <= k < s.len() && #[trigger] s[k] == w;
                assert(s.push(ws[n - 1])[k] == w);
            }
        }
    }
}

/// A word is among the word-by-word survivors exactly when some surviving position holds it.
pub proof fn lemma_plain_survivors_contains(ws: Seq<Seq<char>>, n: int, w: Seq<char>)
    requires
        0 <= n <= ws.len(),
    ensures
        plain_survivors(ws, n).contains(w) <==> exists|i: int|
            0 <= i < n && survives_plain(ws, i) && ws[i] == w,
    decreases n,
{
    if n > 0 {
        lemma_plain_survivors_contains(ws, n - 1, w);
        let s = plain_survivors(ws, n - 1);
        if survives_plain(ws, n - 1) {
            assert(s.push(ws[n - 1])[s.len() as int] == ws[n - 1]);
            if s.push(ws[n - 1]).contains(w) && w != ws[n - 1] {
                let t = s.push(ws[n - 1]);
                let k = choose|k: int| 0 <= k < t.len() && #[trigger] t[k] == w;
                assert(s[k] == w);
            }
            if s.contains(w) {
                let k = choose|k: int| 0 <= k < s.len() && #[trigger] s[k] == w;
                assert(s.push(ws[n - 1])[k] == w);
            }
        }
    }
}

} // verus!
