//! Candidates taken longest first, probed through an index of the kept ones
//! keyed by letter and count.
use vstd::prelude::*;

use crate::grouping::{frequency_vectors, unique_flags, vectors_of};
use crate::letters::{
    counts, dominated, freq, is_dominated_by, is_lower, is_word, lemma_dominated_total,
    lemma_dominated_trans, lemma_total_len, ALPHABET,
};
use crate::survivors::{
    all_words, dominated_by_candidate, is_candidate, lemma_survivors_contains, survives, survivors,
    words_of,
};

verus! {

/// Each word index of `order` is listed once, is a candidate, and every
/// candidate is listed.
pub open spec fn lists_candidates(ws: Seq<Seq<char>>, order: Seq<usize>) -> bool {
    &&& order.no_duplicates()
    &&& forall|p: int| 0 <= p < order.len() ==> order[p] < ws.len() && is_candidate(ws, #[trigger] order[p] as int)
    &&& forall|i: int| 0 <= i < ws.len() && is_candidate(ws, i) ==> #[trigger] order.contains(i as usize)
}

/// No word of `order` is shorter than a word that comes after it.
pub open spec fn longest_first(ws: Seq<Seq<char>>, order: Seq<usize>) -> bool {
    forall|p: int, q: int|
        #![trigger order[p], order[q]]
        0 <= p < q < order.len() ==> ws[order[p] as int].len() >= ws[order[q] as int].len()
}

/// The candidates of the list (as flagged by `flags`), longest first: a word's
/// length is the total of its letter counts.
fn candidates_longest_first(words: &[String], flags: &Vec<bool>) -> (order: Vec<usize>)
    requires
        all_words(words_of(words@)),
        flags@.len() == words@.len(),
        forall|i: int| 0 <= i < flags@.len() ==> #[trigger] flags@[i] == is_candidate(words_of(words@), i),
    ensures
        lists_candidates(words_of(words@), order@),
        longest_first(words_of(words@), order@),
{
    let ghost ws = words_of(words@);
    let n = words.len();
    let mut lens: Vec<usize> = Vec::new();
    let mut i: usize = 0;
    while i < n
        invariant
            ws == words_of(words@),
            all_words(ws),
            n == words@.len(),
            0 <= i <= n,
            lens@.len() == i,
            forall|k: int| 0 <= k < i ==> #[trigger] lens@[k] == ws[k].len(),
        decreases n - i,
    {
        assert(ws[i as int] == words@[i as int]@);
        assert(is_word(ws[i as int]));
        let s = words[i].as_str();
        proof {
            let w = ws[i as int];
            assert(s@ == w);
            assert forall|j: int| 0 <= j < w.len() implies '\0' <= #[trigger] w[j] <= '\u{7f}' by {
                assert(is_lower(w[j]));
            }
            vstd::utf8::is_ascii_chars_encode_utf8(w);
        }
        let m = s.as_bytes().len();
        assert(m == ws[i as int].len());
        lens.push(m);
        i = i + 1;
    }
    let mut order: Vec<usize> = Vec::new();
    i = 0;
    while i < n
        invariant
            ws == words_of(words@),
            n == words@.len(),
            0 <= i <= n,
            lens@.len() == n,
            forall|k: int| 0 <= k < n ==> #[trigger] lens@[k] == ws[k].len(),
            flags@.len() == n,
            forall|k: int| 0 <= k < n ==> #[trigger] flags@[k] == is_candidate(ws, k),
            order@.no_duplicates(),
            forall|p: int| 0 <= p < order@.len() ==> #[trigger] order@[p] < i && is_candidate(ws, order@[p] as int),
            forall|k: int| 0 <= k < i && is_candidate(ws, k) ==> #[trigger] order@.contains(k as usize),
            longest_first(ws, order@),
        decreases n - i,
    {
        if flags[i] {
            let mut pos: usize = 0;
            while pos < order.len() && lens[order[pos]] >= lens[i]
                invariant
                    0 <= pos <= order@.len(),
                    forall|p: int| 0 <= p < order@.len() ==> #[trigger] order@[p] < i,
                    i < n,
                    lens@.len() == n,
                    forall|p: int| 0 <= p < pos ==> lens@[#[trigger] order@[p] as int] >= lens@[i as int],
                decreases order@.len() - pos,
            {
                pos = pos + 1;
            }
            let ghost old_order = order@;
            order.insert(pos, i);
            proof {
                old_order.insert_ensures(pos as int, i);
                let o = order@;
                assert forall|p: int, q: int|
                    #![trigger o[p], o[q]]
                    0 <= p < q < o.len() implies ws[o[p] as int].len() >= ws[o[q] as int].len() by {
                    if q < pos {
                        assert(o[p] == old_order[p] && o[q] == old_order[q]);
                    } else if q == pos {
                        assert(o[p] == old_order[p]);
                    } else if p < pos {
                        assert(o[p] == old_order[p] && o[q] == old_order[q - 1]);
                        assert(lens@[old_order[p] as int] >= lens@[i as int]);
                        assert(lens@[old_order[pos as int] as int] < lens@[i as int]);
                    } else if p == pos {
                        assert(o[q] == old_order[q - 1]);
                        assert(lens@[old_order[pos as int] as int] < lens@[i as int]);
                    } else {
                        assert(o[p] == old_order[p - 1] && o[q] == old_order[q - 1]);
                    }
                }
                assert forall|a: int, b: int| 0 <= a < b < o.len() implies o[a] != o[b] by {
                    if a < pos {
                        assert(o[a] == old_order[a]);
                    } else if a > pos {
                        assert(o[a] == old_order[a - 1]);
                    }
                    if b < pos {
                        assert(o[b] == old_order[b]);
                    } else if b > pos {
                        assert(o[b] == old_order[b - 1]);
                    }
                }
                assert forall|p: int| 0 <= p < o.len() implies #[trigger] o[p] < i + 1 && is_candidate(ws, o[p] as int) by {
                    if p < pos {
                        assert(o[p] == old_order[p]);
                    } else if p > pos {
                        assert(o[p] == old_order[p - 1]);
                    }
                }
                assert forall|k: int| 0 <= k < i + 1 && is_candidate(ws, k) implies #[trigger] o.contains(k as usize) by {
                    if k == i {
                        assert(o[pos as int] == i);
                    } else {
                        assert(old_order.contains(k as usize));
                        let p = choose|p: int| 0 <= p < old_order.len() && old_order[p] == k as usize;
                        if p < pos {
                            assert(o[p] == old_order[p]);
                        } else {
                            assert(o[p + 1] == old_order[p]);
                        }
                    }
                }
            }
        }
        i = i + 1;
    }
    order
}

/// Highest count per letter that the index keeps a bucket for.
pub const MAX_INDEXED_COUNT: usize = 16;

/// Buckets per letter: one for each count from zero to `MAX_INDEXED_COUNT`.
pub const BUCKETS_PER_LETTER: usize = 17;

/// Number of buckets in the index.
pub const BUCKET_COUNT: usize = ALPHABET * BUCKETS_PER_LETTER;

/// The bucket of letter `l` and count `c`.
pub open spec fn bucket(bs: Seq<Vec<usize>>, l: int, c: int) -> Seq<usize> {
    bs[l * BUCKETS_PER_LETTER + c]@
}

/// Some position listed in `list` holds a vector that dominates `y`.
pub open spec fn hits(y: Seq<nat>, fs: Seq<[usize; 26]>, order: Seq<usize>, list: Seq<usize>) -> bool {
    exists|e: int| 0 <= e < list.len() && dominated(y, counts(fs[order[#[trigger] list[e] as int] as int]))
}

/// Some bucket of a higher count than `y` has for its letter, or the overflow
/// list, holds a position whose vector dominates `y`.
pub open spec fn probe_hits(
    y: Seq<nat>,
    fs: Seq<[usize; 26]>,
    order: Seq<usize>,
    bs: Seq<Vec<usize>>,
    overflow: Seq<usize>,
) -> bool {
    ||| exists|l: int, c: int|
        0 <= l < ALPHABET && y[l] < c <= MAX_INDEXED_COUNT && hits(y, fs, order, #[trigger] bucket(bs, l, c))
    ||| hits(y, fs, order, overflow)
}

/// Whether a position in `list` holds a vector that dominates `y`.
fn any_dominates(y: &[usize; 26], fs: &Vec<[usize; 26]>, order: &Vec<usize>, list: &Vec<usize>) -> (found: bool)
    requires
        forall|e: int| 0 <= e < list@.len() ==> #[trigger] list@[e] < order@.len(),
        forall|p: int| 0 <= p < order@.len() ==> #[trigger] order@[p] < fs@.len(),
    ensures
        found == hits(counts(*y), fs@, order@, list@),
{
    let mut e: usize = 0;
    while e < list.len()
        invariant
            forall|e: int| 0 <= e < list@.len() ==> #[trigger] list@[e] < order@.len(),
            forall|p: int| 0 <= p < order@.len() ==> #[trigger] order@[p] < fs@.len(),
            0 <= e <= list@.len(),
            forall|d: int| 0 <= d < e ==> !dominated(counts(*y), counts(fs@[order@[#[trigger] list@[d] as int] as int])),
        decreases list@.len() - e,
    {
        if is_dominated_by(y, &fs[order[list[e]]]) {
            return true;
        }
        e = e + 1;
    }
    false
}

/// Probes the index for a kept vector that dominates `y`.
fn probe(
    y: &[usize; 26],
    fs: &Vec<[usize; 26]>,
    order: &Vec<usize>,
    bs: &Vec<Vec<usize>>,
    overflow: &Vec<usize>,
) -> (found: bool)
    requires
        bs@.len() == BUCKET_COUNT,
        forall|b: int, e: int| 0 <= b < BUCKET_COUNT && 0 <= e < bs@[b]@.len() ==> #[trigger] bs@[b]@[e] < order@.len(),
        forall|e: int| 0 <= e < overflow@.len() ==> #[trigger] overflow@[e] < order@.len(),
        forall|p: int| 0 <= p < order@.len() ==> #[trigger] order@[p] < fs@.len(),
    ensures
        found == probe_hits(counts(*y), fs@, order@, bs@, overflow@),
{
    let ghost yv = counts(*y);
    let mut found = false;
    let mut l: usize = 0;
    while l < ALPHABET && !found
        invariant
            yv == counts(*y),
            bs@.len() == BUCKET_COUNT,
            forall|b: int, e: int| 0 <= b < BUCKET_COUNT && 0 <= e < bs@[b]@.len() ==> #[trigger] bs@[b]@[e] < order@.len(),
            forall|p: int| 0 <= p < order@.len() ==> #[trigger] order@[p] < fs@.len(),
            0 <= l <= ALPHABET,
            found ==> probe_hits(yv, fs@, order@, bs@, overflow@),
            !found ==> forall|m: int, c: int|
                0 <= m < l && yv[m] < c <= MAX_INDEXED_COUNT ==> !hits(yv, fs@, order@, #[trigger] bucket(bs@, m, c)),
        decreases ALPHABET - l,
    {
        if y[l] < MAX_INDEXED_COUNT {
            let mut c: usize = y[l] + 1;
            while c <= MAX_INDEXED_COUNT && !found
                invariant
                    yv == counts(*y),
                    bs@.len() == BUCKET_COUNT,
                    forall|b: int, e: int| 0 <= b < BUCKET_COUNT && 0 <= e < bs@[b]@.len() ==> #[trigger] bs@[b]@[e] < order@.len(),
                    forall|p: int| 0 <= p < order@.len() ==> #[trigger] order@[p] < fs@.len(),
                    0 <= l < ALPHABET,
                    y[l as int] < c <= MAX_INDEXED_COUNT + 1,
                    found ==> probe_hits(yv, fs@, order@, bs@, overflow@),
                    !found ==> forall|m: int, d: int|
                        0 <= m < l && yv[m] < d <= MAX_INDEXED_COUNT ==> !hits(yv, fs@, order@, #[trigger] bucket(bs@, m, d)),
                    !found ==> forall|d: int|
                        yv[l as int] < d < c ==> !hits(yv, fs@, order@, #[trigger] bucket(bs@, l as int, d)),
                decreases MAX_INDEXED_COUNT + 1 - c,
            {
                let b = l * BUCKETS_PER_LETTER + c;
                let list = &bs[b];
                assert(list@ == bucket(bs@, l as int, c as int));
                assert forall|e: int| 0 <= e < list@.len() implies #[trigger] list@[e] < order@.len() by {
                    assert(bs@[b as int]@[e] < order@.len());
                }
                found = any_dominates(y, fs, order, list);
                c = c + 1;
            }
        }
        l = l + 1;
    }
    if !found {
        found = any_dominates(y, fs, order, overflow);
    }
    found
}

/// Adds position `k`, whose vector is `y`, to the bucket of each of its letters;
/// when a count is beyond the buckets, adds it to the overflow list too.
fn index_kept(bs: &mut Vec<Vec<usize>>, overflow: &mut Vec<usize>, y: &[usize; 26], k: usize)
    requires
        old(bs)@.len() == BUCKET_COUNT,
        forall|b: int, e: int| 0 <= b < BUCKET_COUNT && 0 <= e < old(bs)@[b]@.len() ==> #[trigger] old(bs)@[b]@[e] < k,
        forall|e: int| 0 <= e < old(overflow)@.len() ==> #[trigger] old(overflow)@[e] < k,
    ensures
        final(bs)@.len() == BUCKET_COUNT,
        forall|b: int, e: int| 0 <= b < BUCKET_COUNT && 0 <= e < final(bs)@[b]@.len() ==> #[trigger] final(bs)@[b]@[e] <= k,
        forall|e: int| 0 <= e < final(overflow)@.len() ==> #[trigger] final(overflow)@[e] <= k,
        forall|l: int, c: int, x: usize|
            0 <= l < ALPHABET && 0 <= c < BUCKETS_PER_LETTER && bucket(old(bs)@, l, c).contains(x)
                ==> #[trigger] bucket(final(bs)@, l, c).contains(x),
        forall|x: usize| old(overflow)@.contains(x) ==> #[trigger] final(overflow)@.contains(x),
        forall|l: int| 0 <= l < ALPHABET && 1 <= y[l] <= MAX_INDEXED_COUNT ==> #[trigger] bucket(final(bs)@, l, y[l] as int).contains(k),
        (exists|l: int| 0 <= l < ALPHABET && #[trigger] y[l] > MAX_INDEXED_COUNT) ==> final(overflow)@.contains(k),
{
    let ghost bs0 = bs@;
    let mut beyond = false;
    let mut l: usize = 0;
    while l < ALPHABET
        invariant
            bs@.len() == BUCKET_COUNT,
            bs0.len() == BUCKET_COUNT,
            forall|b: int, e: int| 0 <= b < BUCKET_COUNT && 0 <= e < bs@[b]@.len() ==> #[trigger] bs@[b]@[e] <= k,
            forall|l: int, c: int, x: usize|
                0 <= l < ALPHABET && 0 <= c < BUCKETS_PER_LETTER && bucket(bs0, l, c).contains(x)
                    ==> #[trigger] bucket(bs@, l, c).contains(x),
            0 <= l <= ALPHABET,
            forall|m: int| 0 <= m < l && 1 <= y[m] <= MAX_INDEXED_COUNT ==> #[trigger] bucket(bs@, m, y[m] as int).contains(k),
            beyond == exists|m: int| 0 <= m < l && #[trigger] y[m] > MAX_INDEXED_COUNT,
        decreases ALPHABET - l,
    {
        let c = y[l];
        if 1 <= c && c <= MAX_INDEXED_COUNT {
            let b = l * BUCKETS_PER_LETTER + c;
            let ghost before = bs@;
            bs[b].push(k);
            proof {
                assert forall|m: int, d: int, x: usize|
                    0 <= m < ALPHABET && 0 <= d < BUCKETS_PER_LETTER && bucket(before, m, d).contains(x)
                        implies #[trigger] bucket(bs@, m, d).contains(x) by {
                    if m * BUCKETS_PER_LETTER + d == b {
                        let e = choose|e: int| 0 <= e < bucket(before, m, d).len() && bucket(before, m, d)[e] == x;
                        assert(bucket(bs@, m, d)[e] == x);
                    } else {
                        assert(bucket(bs@, m, d) == bucket(before, m, d));
                    }
                }
                assert(bucket(bs@, l as int, c as int).last() == k);
                assert forall|m: int| 0 <= m < l + 1 && 1 <= y[m] <= MAX_INDEXED_COUNT implies #[trigger] bucket(bs@, m, y[m] as int).contains(k) by {
                    if m < l {
                        assert(bucket(before, m, y[m] as int).contains(k));
                    } else {
                        let t = bucket(bs@, l as int, c as int);
                        assert(t[t.len() - 1] == k);
                    }
                }
                assert forall|bb: int, e: int| 0 <= bb < BUCKET_COUNT && 0 <= e < bs@[bb]@.len() implies #[trigger] bs@[bb]@[e] <= k by {
                    if bb != b {
                        assert(bs@[bb] == before[bb]);
                    } else if e < before[bb]@.len() {
                        assert(bs@[bb]@[e] == before[bb]@[e]);
                    }
                }
            }
        } else if c > MAX_INDEXED_COUNT {
            beyond = true;
        }
        l = l + 1;
    }
    if beyond {
        let ghost before = overflow@;
        overflow.push(k);
        proof {
            assert(overflow@[overflow@.len() - 1] == k);
            assert forall|x: usize| before.contains(x) implies #[trigger] overflow@.contains(x) by {
                let e = choose|e: int| 0 <= e < before.len() && before[e] == x;
                assert(overflow@[e] == x);
            }
        }
    }
}

/// A candidate that dominates the word at position `k` comes before `k`.
proof fn lemma_dominator_before(ws: Seq<Seq<char>>, order: Seq<usize>, k: int, j: int) -> (q: int)
    requires
        ws.len() <= usize::MAX,
        all_words(ws),
        lists_candidates(ws, order),
        longest_first(ws, order),
        0 <= k < order.len(),
        0 <= j < ws.len(),
        is_candidate(ws, j),
        dominated(freq(ws[order[k] as int]), freq(ws[j])),
    ensures
        0 <= q < k,
        order[q] == j,
{
    assert(order.contains(j as usize));
    let q = choose|q: int| 0 <= q < order.len() && order[q] == j as usize;
    lemma_dominated_total(freq(ws[order[k] as int]), freq(ws[j]));
    lemma_total_len(ws[order[k] as int]);
    lemma_total_len(ws[j]);
    if q > k {
        assert(ws[order[k] as int].len() >= ws[order[q] as int].len());
    }
    q
}

/// Where some earlier position dominates position `k`, some earlier kept
/// position does too.
proof fn lemma_kept_dominator(ws: Seq<Seq<char>>, order: Seq<usize>, kept: Seq<bool>, k: int, p: int) -> (q: int)
    requires
        ws.len() <= usize::MAX,
        all_words(ws),
        lists_candidates(ws, order),
        longest_first(ws, order),
        0 <= k < order.len(),
        kept.len() == k,
        forall|r: int| 0 <= r < k ==> #[trigger] kept[r] == survives(ws, order[r] as int),
        0 <= p < k,
        dominated(freq(ws[order[k] as int]), freq(ws[order[p] as int])),
    ensures
        0 <= q < k,
        kept[q],
        dominated(freq(ws[order[k] as int]), freq(ws[order[q] as int])),
    decreases p,
{
    if kept[p] {
        p
    } else {
        let x = order[p] as int;
        assert(is_candidate(ws, x));
        assert(dominated_by_candidate(ws, x));
        let j = choose|j: int| 0 <= j < ws.len() && is_candidate(ws, j) && dominated(freq(ws[x]), #[trigger] freq(ws[j]));
        let q2 = lemma_dominator_before(ws, order, p, j);
        lemma_dominated_trans(freq(ws[order[k] as int]), freq(ws[x]), freq(ws[j]));
        lemma_kept_dominator(ws, order, kept, k, q2)
    }
}

/// The probe finds a dominating vector exactly when the word at position `k`
/// does not survive.
proof fn lemma_probe_decides(
    ws: Seq<Seq<char>>,
    fs: Seq<[usize; 26]>,
    order: Seq<usize>,
    kept: Seq<bool>,
    bs: Seq<Vec<usize>>,
    overflow: Seq<usize>,
    k: int,
)
    requires
        ws.len() <= usize::MAX,
        all_words(ws),
        vectors_of(ws, fs),
        lists_candidates(ws, order),
        longest_first(ws, order),
        0 <= k < order.len() <= usize::MAX,
        kept.len() == k,
        forall|r: int| 0 <= r < k ==> #[trigger] kept[r] == survives(ws, order[r] as int),
        bs.len() == BUCKET_COUNT,
        forall|b: int, e: int| 0 <= b < BUCKET_COUNT && 0 <= e < bs[b]@.len() ==> #[trigger] bs[b]@[e] < k,
        forall|e: int| 0 <= e < overflow.len() ==> #[trigger] overflow[e] < k,
        forall|r: int, l: int|
            0 <= r < k && 0 <= l < ALPHABET && kept[r] && 1 <= #[trigger] fs[order[r] as int][l] <= MAX_INDEXED_COUNT
                ==> bucket(bs, l, fs[order[r] as int][l] as int).contains(r as usize),
        forall|r: int|
            0 <= r < k && #[trigger] kept[r] && (exists|l: int| 0 <= l < ALPHABET && fs[order[r] as int][l] > MAX_INDEXED_COUNT)
                ==> overflow.contains(r as usize),
    ensures
        probe_hits(counts(fs[order[k] as int]), fs, order, bs, overflow) == !survives(ws, order[k] as int),
{
    let cur = order[k] as int;
    let y = counts(fs[cur]);
    assert(y == freq(ws[cur]));
    assert(is_candidate(ws, cur));
    if probe_hits(y, fs, order, bs, overflow) {
        let list = if hits(y, fs, order, overflow) {
            overflow
        } else {
            let (l, c) = choose|l: int, c: int|
                0 <= l < ALPHABET && y[l] < c <= MAX_INDEXED_COUNT && hits(y, fs, order, #[trigger] bucket(bs, l, c));
            bucket(bs, l, c)
        };
        assert(hits(y, fs, order, list));
        let e = choose|e: int| 0 <= e < list.len() && dominated(y, counts(fs[order[#[trigger] list[e] as int] as int]));
        assert(list[e] < k) by {
            if list == overflow {
            } else {
                let (l, c) = choose|l: int, c: int|
                    0 <= l < ALPHABET && y[l] < c <= MAX_INDEXED_COUNT && hits(y, fs, order, #[trigger] bucket(bs, l, c));
                assert(list == bucket(bs, l, c));
                assert(bs[l * BUCKETS_PER_LETTER + c]@[e] < k);
            }
        }
        let j = order[list[e] as int] as int;
        assert(counts(fs[j]) == freq(ws[j]));
        assert(is_candidate(ws, j));
        assert(dominated_by_candidate(ws, cur));
    }
    if dominated_by_candidate(ws, cur) {
        let j = choose|j: int| 0 <= j < ws.len() && is_candidate(ws, j) && dominated(freq(ws[cur]), #[trigger] freq(ws[j]));
        let q = lemma_dominator_before(ws, order, k, j);
        let r = lemma_kept_dominator(ws, order, kept, k, q);
        let z = counts(fs[order[r] as int]);
        assert(z == freq(ws[order[r] as int]));
        if forall|l: int| 0 <= l < ALPHABET ==> #[trigger] z[l] == y[l] {
            assert(z =~= y);
        }
        let l = choose|l: int| !(0 <= l < ALPHABET ==> #[trigger] z[l] == y[l]);
        assert(y[l] < z[l]);
        if exists|m: int| 0 <= m < ALPHABET && fs[order[r] as int][m] > MAX_INDEXED_COUNT {
            assert(overflow.contains(r as usize));
            let e = choose|e: int| 0 <= e < overflow.len() && overflow[e] == r as usize;
            assert(dominated(y, counts(fs[order[overflow[e] as int] as int])));
            assert(hits(y, fs, order, overflow));
        } else {
            let c = fs[order[r] as int][l] as int;
            assert(c <= MAX_INDEXED_COUNT);
            let list = bucket(bs, l, c);
            assert(list.contains(r as usize));
            let e = choose|e: int| 0 <= e < list.len() && list[e] == r as usize;
            assert(dominated(y, counts(fs[order[list[e] as int] as int])));
            assert(hits(y, fs, order, list));
        }
    }
}

/// Keeps each word that has no anagram in the list and that no other such word
/// dominates: the same words as the pairwise filter, each once, longest first.
pub fn remove_anagrams_and_sub_anagrams_bitset(words: &[String]) -> (r: Vec<String>)
    requires
        all_words(words_of(words@)),
    ensures
        words_of(r@).no_duplicates(),
        forall|w: Seq<char>|
            #[trigger] words_of(r@).contains(w) <==> survivors(words_of(words@), words@.len() as int).contains(w),
        forall|a: int, b: int| 0 <= a < b < r@.len() ==> #[trigger] r@[a]@.len() >= #[trigger] r@[b]@.len(),
{
    let ghost ws = words_of(words@);
    if words.len() == 0 {
        let r: Vec<String> = Vec::new();
        assert forall|w: Seq<char>| #[trigger] words_of(r@).contains(w) <==> survivors(ws, 0).contains(w) by {
            assert(words_of(r@) =~= survivors(ws, 0));
        }
        return r;
    }
    let fs = frequency_vectors(words);
    let flags = unique_flags(words, &fs);
    let order = candidates_longest_first(words, &flags);
    let g = order.len();
    let mut bs: Vec<Vec<usize>> = Vec::new();
    let mut b: usize = 0;
    while b < BUCKET_COUNT
        invariant
            0 <= b <= BUCKET_COUNT,
            bs@.len() == b,
            forall|d: int| 0 <= d < b ==> #[trigger] bs@[d]@.len() == 0,
        decreases BUCKET_COUNT - b,
    {
        bs.push(Vec::new());
        b = b + 1;
    }
    let mut overflow: Vec<usize> = Vec::new();
    let mut result: Vec<String> = Vec::new();
    let ghost mut kept: Seq<bool> = Seq::empty();
    let mut k: usize = 0;
    while k < g
        invariant
            ws == words_of(words@),
            ws.len() <= usize::MAX,
            all_words(ws),
            vectors_of(ws, fs@),
            lists_candidates(ws, order@),
            longest_first(ws, order@),
            g == order@.len(),
            0 <= k <= g,
            kept.len() == k,
            forall|r: int| 0 <= r < k ==> #[trigger] kept[r] == survives(ws, order@[r] as int),
            bs@.len() == BUCKET_COUNT,
            forall|b: int, e: int| 0 <= b < BUCKET_COUNT && 0 <= e < bs@[b]@.len() ==> #[trigger] bs@[b]@[e] < k,
            forall|e: int| 0 <= e < overflow@.len() ==> #[trigger] overflow@[e] < k,
            forall|r: int, l: int|
                0 <= r < k && 0 <= l < ALPHABET && kept[r] && 1 <= #[trigger] fs@[order@[r] as int][l] <= MAX_INDEXED_COUNT
                    ==> bucket(bs@, l, fs@[order@[r] as int][l] as int).contains(r as usize),
            forall|r: int|
                0 <= r < k && #[trigger] kept[r] && (exists|l: int| 0 <= l < ALPHABET && fs@[order@[r] as int][l] > MAX_INDEXED_COUNT)
                    ==> overflow@.contains(r as usize),
            words_of(result@).no_duplicates(),
            forall|w: Seq<char>| #[trigger] words_of(result@).contains(w) <==> exists|r: int|
                0 <= r < k && kept[r] && ws[order@[r] as int] == w,
            forall|a: int| 0 <= a < result@.len() ==> exists|r: int|
                0 <= r < k && #[trigger] result@[a]@ == ws[order@[r] as int],
            forall|a: int, b: int| 0 <= a < b < result@.len() ==> #[trigger] result@[a]@.len() >= #[trigger] result@[b]@.len(),
        decreases g - k,
    {
        let cur = order[k];
        let y: [usize; 26] = fs[cur];
        assert(forall|p: int| 0 <= p < order@.len() ==> #[trigger] order@[p] < fs@.len());
        let found = probe(&y, &fs, &order, &bs, &overflow);
        proof {
            lemma_probe_decides(ws, fs@, order@, kept, bs@, overflow@, k as int);
        }
        if !found {
            let ghost before = result@;
            result.push(words[cur].clone());
            proof {
                let nw = ws[cur as int];
                assert(words_of(result@) =~= words_of(before).push(nw));
                assert(!words_of(before).contains(nw)) by {
                    if words_of(before).contains(nw) {
                        let r = choose|r: int| 0 <= r < k && kept[r] && ws[order@[r] as int] == nw;
                        assert(order@[r] != order@[k as int]);
                        assert(freq(ws[order@[r] as int]) == freq(nw));
                        assert(is_candidate(ws, cur as int));
                    }
                }
                assert forall|w: Seq<char>| #[trigger] words_of(result@).contains(w) <==> exists|r: int|
                    0 <= r < k + 1 && kept.push(true)[r] && ws[order@[r] as int] == w by {
                    if words_of(result@).contains(w) && w != nw {
                        let a = choose|a: int| 0 <= a < words_of(result@).len() && words_of(result@)[a] == w;
                        assert(words_of(before)[a] == w);
                        assert(words_of(before).contains(w));
                        let r = choose|r: int| 0 <= r < k && kept[r] && ws[order@[r] as int] == w;
                        assert(kept.push(true)[r]);
                    }
                    if w == nw {
                        assert(words_of(result@)[before.len() as int] == w);
                        assert(kept.push(true)[k as int]);
                    }
                    if exists|r: int| 0 <= r < k + 1 && kept.push(true)[r] && ws[order@[r] as int] == w {
                        let r = choose|r: int| 0 <= r < k + 1 && kept.push(true)[r] && ws[order@[r] as int] == w;
                        if r < k {
                            assert(kept[r]);
                            assert(words_of(before).contains(w));
                            let a = choose|a: int| 0 <= a < words_of(before).len() && words_of(before)[a] == w;
                            assert(words_of(result@)[a] == w);
                        } else {
                            assert(words_of(result@)[before.len() as int] == w);
                        }
                    }
                }
                assert forall|a: int| 0 <= a < result@.len() implies exists|r: int|
                    0 <= r < k + 1 && #[trigger] result@[a]@ == ws[order@[r] as int] by {
                    if a < before.len() {
                        assert(result@[a] == before[a]);
                    } else {
                        assert(result@[a]@ == ws[order@[k as int] as int]);
                    }
                }
                assert forall|a: int, b: int| 0 <= a < b < result@.len() implies #[trigger] result@[a]@.len() >= #[trigger] result@[b]@.len() by {
                    if b < before.len() {
                        assert(result@[a] == before[a] && result@[b] == before[b]);
                    } else {
                        assert(result@[a] == before[a]);
                        let r = choose|r: int| 0 <= r < k && #[trigger] before[a]@ == ws[order@[r] as int];
                        assert(ws[order@[r] as int].len() >= ws[order@[k as int] as int].len());
                    }
                }
            }
            index_kept(&mut bs, &mut overflow, &y, k);
        }
        proof {
            let prev = kept;
            kept = kept.push(!found);
            if found {
                assert forall|w: Seq<char>| #[trigger] words_of(result@).contains(w) <==> exists|r: int|
                    0 <= r < k + 1 && kept[r] && ws[order@[r] as int] == w by {
                    if exists|r: int| 0 <= r < k + 1 && kept[r] && ws[order@[r] as int] == w {
                        let r = choose|r: int| 0 <= r < k + 1 && kept[r] && ws[order@[r] as int] == w;
                        assert(prev[r]);
                    }
                    if exists|r: int| 0 <= r < k && prev[r] && ws[order@[r] as int] == w {
                        let r = choose|r: int| 0 <= r < k && prev[r] && ws[order@[r] as int] == w;
                        assert(kept[r]);
                    }
                }
            }
        }
        k = k + 1;
    }
    proof {
        assert forall|w: Seq<char>| #[trigger] words_of(result@).contains(w) <==> survivors(ws, ws.len() as int).contains(w) by {
            lemma_survivors_contains(ws, ws.len() as int, w);
            if exists|i: int| 0 <= i < ws.len() && survives(ws, i) && ws[i] == w {
                let i = choose|i: int| 0 <= i < ws.len() && survives(ws, i) && ws[i] == w;
                assert(order@.contains(i as usize));
                let r = choose|r: int| 0 <= r < order@.len() && order@[r] == i as usize;
                assert(kept[r]);
            }
            if words_of(result@).contains(w) {
                let r = choose|r: int| 0 <= r < k && kept[r] && ws[order@[r] as int] == w;
                assert(survives(ws, order@[r] as int));
            }
        }
    }
    result
}

} // verus!
