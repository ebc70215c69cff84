//! Properties that relate the filters to each other and to themselves.
use vstd::prelude::*;

use crate::letters::{dominated, freq};
use crate::survivors::{
    all_words, dominated_by_candidate, dominated_by_word, has_anagram, is_candidate,
    lemma_plain_survivors_contains, lemma_survivors_contains, plain_survivors, survives,
    survives_plain, survivors,
};

verus! {

/// Every word that some word of the list dominates is also dominated by a
/// word that has no anagram in the list.
pub open spec fn dominators_are_candidates(ws: Seq<Seq<char>>) -> bool {
    forall|i: int|
        0 <= i < ws.len() && is_candidate(ws, i) && #[trigger] dominated_by_word(ws, i)
            ==> dominated_by_candidate(ws, i)
}

/// `ws2` lists the words of `ws1` in the order `perm`: its `k`-th word is the
/// `perm[k]`-th word of `ws1`, and `perm` takes each position exactly once.
pub open spec fn is_permutation(ws1: Seq<Seq<char>>, ws2: Seq<Seq<char>>, perm: Seq<int>) -> bool {
    &&& ws2.len() == ws1.len()
    &&& perm.len() == ws1.len()
    &&& perm.no_duplicates()
    &&& forall|k: int| 0 <= k < perm.len() ==> 0 <= #[trigger] perm[k] < ws1.len() && ws2[k] == ws1[perm[k]]
    &&& forall|i: int|
        #![trigger ws1[i]]
        0 <= i < ws1.len() ==> exists|k: int| 0 <= k < perm.len() && #[trigger] perm[k] == i
}

/// The word-by-word filter and the grouped filters keep the same words,
/// whenever every dominated word has a dominator without anagrams in the list.
/// (The indexed filter keeps the words of the grouped one by its contract.)
pub proof fn lemma_strategies_agree(ws: Seq<Seq<char>>)
    requires
        dominators_are_candidates(ws),
    ensures
        plain_survivors(ws, ws.len() as int) == survivors(ws, ws.len() as int),
        forall|w: Seq<char>|
            #[trigger] plain_survivors(ws, ws.len() as int).contains(w) <==> survivors(ws, ws.len() as int).contains(w),
{
    lemma_same_survivors(ws, ws.len() as int);
}

proof fn lemma_same_survivors(ws: Seq<Seq<char>>, n: int)
    requires
        dominators_are_candidates(ws),
        0 <= n <= ws.len(),
    ensures
        plain_survivors(ws, n) == survivors(ws, n),
    decreases n,
{
    if n > 0 {
        lemma_same_survivors(ws, n - 1);
        let i = n - 1;
        if is_candidate(ws, i) && dominated_by_candidate(ws, i) {
            let j = choose|j: int| 0 <= j < ws.len() && is_candidate(ws, j) && dominated(freq(ws[i]), #[trigger] freq(ws[j]));
            assert(dominated_by_word(ws, i));
        }
        assert(survives_plain(ws, i) == survives(ws, i));
    }
}

/// No two surviving words of the grouped filter are the same.
pub proof fn lemma_survivors_distinct(ws: Seq<Seq<char>>, n: int)
    requires
        0 <= n <= ws.len(),
    ensures
        survivors(ws, n).no_duplicates(),
    decreases n,
{
    if n > 0 {
        lemma_survivors_distinct(ws, n - 1);
        let s = survivors(ws, n - 1);
        if survives(ws, n - 1) {
            lemma_survivors_contains(ws, n - 1, ws[n - 1]);
            if s.contains(ws[n - 1]) {
                let i = choose|i: int| 0 <= i < n - 1 && survives(ws, i) && ws[i] == ws[n - 1];
                assert(freq(ws[i]) == freq(ws[n - 1]));
                assert(has_anagram(ws, n - 1));
            }
            let t = s.push(ws[n - 1]);
            assert forall|a: int, b: int| 0 <= a < b < t.len() implies #[trigger] t[a] != #[trigger] t[b] by {
                if b == s.len() {
                    assert(t[a] == s[a]);
                }
            }
        }
    }
}

/// No two surviving words of the word-by-word filter are the same.
pub proof fn lemma_plain_survivors_distinct(ws: Seq<Seq<char>>, n: int)
    requires
        0 <= n <= ws.len(),
    ensures
        plain_survivors(ws, n).no_duplicates(),
    decreases n,
{
    if n > 0 {
        lemma_plain_survivors_distinct(ws, n - 1);
        let s = plain_survivors(ws, n - 1);
        if survives_plain(ws, n - 1) {
            lemma_plain_survivors_contains(ws, n - 1, ws[n - 1]);
            if s.contains(ws[n - 1]) {
                let i = choose|i: int| 0 <= i < n - 1 && survives_plain(ws, i) && ws[i] == ws[n - 1];
                assert(freq(ws[i]) == freq(ws[n - 1]));
                assert(has_anagram(ws, n - 1));
            }
            let t = s.push(ws[n - 1]);
            assert forall|a: int, b: int| 0 <= a < b < t.len() implies #[trigger] t[a] != #[trigger] t[b] by {
                if b == s.len() {
                    assert(t[a] == s[a]);
                }
            }
        }
    }
}

/// Where every position of `r` survives, the filter keeps `r` whole.
proof fn lemma_all_survive(r: Seq<Seq<char>>, n: int)
    requires
        0 <= n <= r.len(),
        forall|a: int| 0 <= a < r.len() ==> #[trigger] survives(r, a),
    ensures
        survivors(r, n) == r.subrange(0, n),
    decreases n,
{
    if n > 0 {
        lemma_all_survive(r, n - 1);
        assert(r.subrange(0, n) =~= r.subrange(0, n - 1).push(r[n - 1]));
    }
}

proof fn lemma_all_survive_plain(r: Seq<Seq<char>>, n: int)
    requires
        0 <= n <= r.len(),
        forall|a: int| 0 <= a < r.len() ==> #[trigger] survives_plain(r, a),
    ensures
        plain_survivors(r, n) == r.subrange(0, n),
    decreases n,
{
    if n > 0 {
        lemma_all_survive_plain(r, n - 1);
        assert(r.subrange(0, n) =~= r.subrange(0, n - 1).push(r[n - 1]));
    }
}

/// Filtering again any list that holds each surviving word of `ws` once, in
/// any order, and nothing else, with the grouped rule, keeps it whole.
pub proof fn lemma_filter_idempotent(ws: Seq<Seq<char>>, r: Seq<Seq<char>>)
    requires
        r.no_duplicates(),
        forall|w: Seq<char>| #[trigger] r.contains(w) <==> survivors(ws, ws.len() as int).contains(w),
    ensures
        survivors(r, r.len() as int) == r,
{
    let n = ws.len() as int;
    assert forall|a: int| 0 <= a < r.len() implies #[trigger] survives(r, a) by {
        assert(r.contains(r[a]));
        lemma_survivors_contains(ws, n, r[a]);
        let i = choose|i: int| 0 <= i < n && survives(ws, i) && ws[i] == r[a];
        if has_anagram(r, a) {
            let b = choose|b: int| 0 <= b < r.len() && b != a && #[trigger] freq(r[b]) == freq(r[a]);
            assert(r.contains(r[b]));
            lemma_survivors_contains(ws, n, r[b]);
            let j = choose|j: int| 0 <= j < n && survives(ws, j) && ws[j] == r[b];
            if i != j {
                assert(has_anagram(ws, i));
            }
        }
        if dominated_by_candidate(r, a) {
            let b = choose|b: int| 0 <= b < r.len() && is_candidate(r, b) && dominated(freq(r[a]), #[trigger] freq(r[b]));
            assert(r.contains(r[b]));
            lemma_survivors_contains(ws, n, r[b]);
            let j = choose|j: int| 0 <= j < n && survives(ws, j) && ws[j] == r[b];
            assert(dominated_by_candidate(ws, i));
        }
    }
    lemma_all_survive(r, r.len() as int);
    assert(r.subrange(0, r.len() as int) =~= r);
}

/// Filtering the grouped filter's result again changes nothing.
pub proof fn lemma_pairwise_idempotent(ws: Seq<Seq<char>>)
    ensures
        survivors(survivors(ws, ws.len() as int), survivors(ws, ws.len() as int).len() as int)
            == survivors(ws, ws.len() as int),
{
    lemma_survivors_distinct(ws, ws.len() as int);
    lemma_filter_idempotent(ws, survivors(ws, ws.len() as int));
}

/// Filtering the word-by-word filter's result again changes nothing.
pub proof fn lemma_brute_force_idempotent(ws: Seq<Seq<char>>)
    ensures
        plain_survivors(plain_survivors(ws, ws.len() as int), plain_survivors(ws, ws.len() as int).len() as int)
            == plain_survivors(ws, ws.len() as int),
{
    let n = ws.len() as int;
    let r = plain_survivors(ws, n);
    lemma_plain_survivors_distinct(ws, n);
    assert forall|a: int| 0 <= a < r.len() implies #[trigger] survives_plain(r, a) by {
        assert(r.contains(r[a]));
        lemma_plain_survivors_contains(ws, n, r[a]);
        let i = choose|i: int| 0 <= i < n && survives_plain(ws, i) && ws[i] == r[a];
        if has_anagram(r, a) {
            let b = choose|b: int| 0 <= b < r.len() && b != a && #[trigger] freq(r[b]) == freq(r[a]);
            assert(r.contains(r[b]));
            lemma_plain_survivors_contains(ws, n, r[b]);
            let j = choose|j: int| 0 <= j < n && survives_plain(ws, j) && ws[j] == r[b];
            if i != j {
                assert(has_anagram(ws, i));
            }
        }
        if dominated_by_word(r, a) {
            let b = choose|b: int| 0 <= b < r.len() && dominated(freq(r[a]), #[trigger] freq(r[b]));
            assert(r.contains(r[b]));
            lemma_plain_survivors_contains(ws, n, r[b]);
            let j = choose|j: int| 0 <= j < n && survives_plain(ws, j) && ws[j] == r[b];
            assert(dominated_by_word(ws, i));
        }
    }
    lemma_all_survive_plain(r, r.len() as int);
    assert(r.subrange(0, r.len() as int) =~= r);
}

/// A word with an anagram elsewhere in the list is kept by neither filter.
pub proof fn lemma_anagrams_removed(ws: Seq<Seq<char>>, i: int)
    requires
        0 <= i < ws.len(),
        has_anagram(ws, i),
    ensures
        !survivors(ws, ws.len() as int).contains(ws[i]),
        !plain_survivors(ws, ws.len() as int).contains(ws[i]),
{
    let n = ws.len() as int;
    lemma_survivors_contains(ws, n, ws[i]);
    lemma_plain_survivors_contains(ws, n, ws[i]);
    if exists|k: int| 0 <= k < n && survives(ws, k) && ws[k] == ws[i] {
        let k = choose|k: int| 0 <= k < n && survives(ws, k) && ws[k] == ws[i];
        if k != i {
            assert(freq(ws[i]) == freq(ws[k]));
            assert(has_anagram(ws, k));
        }
    }
    if exists|k: int| 0 <= k < n && survives_plain(ws, k) && ws[k] == ws[i] {
        let k = choose|k: int| 0 <= k < n && survives_plain(ws, k) && ws[k] == ws[i];
        if k != i {
            assert(freq(ws[i]) == freq(ws[k]));
            assert(has_anagram(ws, k));
        }
    }
}

/// No word of the list dominates a word that the word-by-word filter keeps.
pub proof fn lemma_brute_force_undominated(ws: Seq<Seq<char>>, w: Seq<char>, j: int)
    requires
        plain_survivors(ws, ws.len() as int).contains(w),
        0 <= j < ws.len(),
    ensures
        !dominated(freq(w), freq(ws[j])),
{
    lemma_plain_survivors_contains(ws, ws.len() as int, w);
    let i = choose|i: int| 0 <= i < ws.len() && survives_plain(ws, i) && ws[i] == w;
    if dominated(freq(w), freq(ws[j])) {
        assert(dominated_by_word(ws, i));
    }
}

/// No word of the list dominates a word that the grouped filter keeps,
/// whenever every dominated word has a dominator without anagrams in the list.
pub proof fn lemma_pairwise_undominated(ws: Seq<Seq<char>>, w: Seq<char>, j: int)
    requires
        dominators_are_candidates(ws),
        survivors(ws, ws.len() as int).contains(w),
        0 <= j < ws.len(),
    ensures
        !dominated(freq(w), freq(ws[j])),
{
    lemma_strategies_agree(ws);
    lemma_brute_force_undominated(ws, w, j);
}

proof fn lemma_permuted_survives(ws1: Seq<Seq<char>>, ws2: Seq<Seq<char>>, perm: Seq<int>, k: int)
    requires
        is_permutation(ws1, ws2, perm),
        0 <= k < ws2.len(),
    ensures
        is_candidate(ws2, k) == is_candidate(ws1, perm[k]),
        survives(ws2, k) == survives(ws1, perm[k]),
        survives_plain(ws2, k) == survives_plain(ws1, perm[k]),
{
    assert forall|m: int| 0 <= m < ws2.len() implies #[trigger] is_candidate(ws2, m) == is_candidate(ws1, perm[m]) by {
        if has_anagram(ws2, m) {
            let j = choose|j: int| 0 <= j < ws2.len() && j != m && #[trigger] freq(ws2[j]) == freq(ws2[m]);
            assert(perm[j] != perm[m]);
            assert(freq(ws1[perm[j]]) == freq(ws1[perm[m]]));
            assert(has_anagram(ws1, perm[m]));
        }
        if has_anagram(ws1, perm[m]) {
            let i = choose|i: int| 0 <= i < ws1.len() && i != perm[m] && #[trigger] freq(ws1[i]) == freq(ws1[perm[m]]);
            let j = choose|j: int| 0 <= j < perm.len() && #[trigger] perm[j] == i;
            assert(freq(ws2[j]) == freq(ws2[m]));
            assert(has_anagram(ws2, m));
        }
    }
    let x = freq(ws2[k]);
    if dominated_by_candidate(ws2, k) {
        let j = choose|j: int| 0 <= j < ws2.len() && is_candidate(ws2, j) && dominated(x, #[trigger] freq(ws2[j]));
        assert(is_candidate(ws1, perm[j]));
        assert(dominated(freq(ws1[perm[k]]), freq(ws1[perm[j]])));
        assert(dominated_by_candidate(ws1, perm[k]));
    }
    if dominated_by_candidate(ws1, perm[k]) {
        let i = choose|i: int| 0 <= i < ws1.len() && is_candidate(ws1, i) && dominated(x, #[trigger] freq(ws1[i]));
        let j = choose|j: int| 0 <= j < perm.len() && #[trigger] perm[j] == i;
        assert(is_candidate(ws2, j));
        assert(dominated(x, freq(ws2[j])));
        assert(dominated_by_candidate(ws2, k));
    }
    if dominated_by_word(ws2, k) {
        let j = choose|j: int| 0 <= j < ws2.len() && dominated(x, #[trigger] freq(ws2[j]));
        assert(dominated(freq(ws1[perm[k]]), freq(ws1[perm[j]])));
        assert(dominated_by_word(ws1, perm[k]));
    }
    if dominated_by_word(ws1, perm[k]) {
        let i = choose|i: int| 0 <= i < ws1.len() && dominated(x, #[trigger] freq(ws1[i]));
        let j = choose|j: int| 0 <= j < perm.len() && #[trigger] perm[j] == i;
        assert(dominated(x, freq(ws2[j])));
        assert(dominated_by_word(ws2, k));
    }
}

/// Reordering the list does not change which words either filter keeps.
pub proof fn lemma_order_independent(ws1: Seq<Seq<char>>, ws2: Seq<Seq<char>>, perm: Seq<int>)
    requires
        is_permutation(ws1, ws2, perm),
    ensures
        forall|w: Seq<char>|
            #[trigger] survivors(ws1, ws1.len() as int).contains(w) <==> survivors(ws2, ws2.len() as int).contains(w),
        forall|w: Seq<char>|
            #[trigger] plain_survivors(ws1, ws1.len() as int).contains(w)
                <==> plain_survivors(ws2, ws2.len() as int).contains(w),
{
    let n = ws1.len() as int;
    assert forall|w: Seq<char>|
        #[trigger] survivors(ws1, n).contains(w) <==> survivors(ws2, n).contains(w) by {
        lemma_survivors_contains(ws1, n, w);
        lemma_survivors_contains(ws2, n, w);
        if exists|i: int| 0 <= i < n && survives(ws1, i) && ws1[i] == w {
            let i = choose|i: int| 0 <= i < n && survives(ws1, i) && ws1[i] == w;
            let k = choose|k: int| 0 <= k < perm.len() && #[trigger] perm[k] == i;
            lemma_permuted_survives(ws1, ws2, perm, k);
        }
        if exists|k: int| 0 <= k < n && survives(ws2, k) && ws2[k] == w {
            let k = choose|k: int| 0 <= k < n && survives(ws2, k) && ws2[k] == w;
            lemma_permuted_survives(ws1, ws2, perm, k);
        }
    }
    assert forall|w: Seq<char>|
        #[trigger] plain_survivors(ws1, n).contains(w) <==> plain_survivors(ws2, n).contains(w) by {
        lemma_plain_survivors_contains(ws1, n, w);
        lemma_plain_survivors_contains(ws2, n, w);
        if exists|i: int| 0 <= i < n && survives_plain(ws1, i) && ws1[i] == w {
            let i = choose|i: int| 0 <= i < n && survives_plain(ws1, i) && ws1[i] == w;
            let k = choose|k: int| 0 <= k < perm.len() && #[trigger] perm[k] == i;
            lemma_permuted_survives(ws1, ws2, perm, k);
        }
        if exists|k: int| 0 <= k < n && survives_plain(ws2, k) && ws2[k] == w {
            let k = choose|k: int| 0 <= k < n && survives_plain(ws2, k) && ws2[k] == w;
            lemma_permuted_survives(ws1, ws2, perm, k);
        }
    }
}

} // verus!
