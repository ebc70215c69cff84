//! Letter counts of lowercase words and the dominance relation between them.
use vstd::prelude::*;

verus! {

/// Number of letters in the alphabet.
pub const ALPHABET: usize = 26;

/// A lowercase ASCII letter.
pub open spec fn is_lower(c: char) -> bool {
    'a' <= c <= 'z'
}

/// A word is made only of lowercase letters.
pub open spec fn is_word(w: Seq<char>) -> bool {
    forall|i: int| 0 <= i < w.len() ==> is_lower(#[trigger] w[i])
}

/// Position of a letter in the alphabet ('a' is 0).
pub open spec fn letter_index(c: char) -> int {
    c as u32 as int - 'a' as u32 as int
}

/// How often the letter with index `l` occurs in `w`.
pub open spec fn letter_count(w: Seq<char>, l: int) -> nat
    decreases w.len(),
{
    if w.len() == 0 {
        0
    } else {
        letter_count(w.drop_last(), l) + if letter_index(w.last()) == l { 1nat } else { 0nat }
    }
}

/// The frequency vector of a word: one count per letter.
pub open spec fn freq(w: Seq<char>) -> Seq<nat> {
    Seq::new(ALPHABET as nat, |l: int| letter_count(w, l))
}

/// The counts of `v` as natural numbers.
pub open spec fn counts(v: [usize; 26]) -> Seq<nat> {
    v@.map_values(|x: usize| x as nat)
}

proof fn lemma_count_step(w: Seq<char>, i: int, l: int)
    requires
        0 <= i < w.len(),
    ensures
        letter_count(w.subrange(0, i + 1), l) == letter_count(w.subrange(0, i), l) + if letter_index(w[i]) == l { 1nat } else { 0nat },
{
    assert(w.subrange(0, i + 1).drop_last() =~= w.subrange(0, i));
}

/// Counts how often each letter occurs in `word`.
pub fn get_frequency_vector(word: &str) -> (r: [usize; 26])
    requires
        is_word(word@),
    ensures
        counts(r) == freq(word@),
{
    let ghost w = word@;
    let mut f: [usize; 26] = [0; 26];
    proof {
        vstd::utf8::is_ascii_chars_encode_utf8(w);
        assert(w.subrange(0, 0) =~= Seq::<char>::empty());
    }
    let bytes = word.as_bytes();
    let n = bytes.len();
    let mut i: usize = 0;
    while i < n
        invariant
            n == bytes@.len() == w.len(),
            w == word@,
            is_word(w),
            0 <= i <= n,
            forall|j: int| 0 <= j < n ==> bytes@[j] == #[trigger] w[j] as u8,
            forall|l: int| 0 <= l < 26 ==> f[l] as nat == letter_count(w.subrange(0, i as int), l),
            forall|l: int| 0 <= l < 26 ==> f[l] <= i,
        decreases n - i,
    {
        let b = bytes[i];
        assert(is_lower(w[i as int]));
        let idx = (b - 97) as usize;
        assert(idx as int == letter_index(w[i as int]));
        f[idx] = f[idx] + 1;
        proof {
            assert forall|l: int| 0 <= l < 26 implies f[l] as nat == letter_count(w.subrange(0, i + 1), l) by {
                lemma_count_step(w, i as int, l);
            }
        }
        i = i + 1;
    }
    assert(w.subrange(0, n as int) =~= w);
    assert(counts(f) =~= freq(w));
    f
}

/// `a` is dominated by `b`: no count of `a` exceeds the matching count of `b`,
/// and the two vectors differ.
pub open spec fn dominated(a: Seq<nat>, b: Seq<nat>) -> bool {
    a != b && forall|l: int| 0 <= l < ALPHABET ==> #[trigger] a[l] <= b[l]
}

/// Sum of the first `k` entries of `v`.
pub open spec fn sum_upto(v: Seq<nat>, k: int) -> nat
    decreases k,
{
    if k <= 0 {
        0
    } else {
        sum_upto(v, k - 1) + v[k - 1]
    }
}

/// Total number of letters counted by `v`.
pub open spec fn total(v: Seq<nat>) -> nat {
    sum_upto(v, ALPHABET as int)
}

proof fn lemma_sum_mono(a: Seq<nat>, b: Seq<nat>, k: int)
    requires
        0 <= k <= a.len(),
        k <= b.len(),
        forall|l: int| 0 <= l < k ==> #[trigger] a[l] <= b[l],
    ensures
        sum_upto(a, k) <= sum_upto(b, k),
        (exists|l: int| 0 <= l < k && #[trigger] a[l] < b[l]) ==> sum_upto(a, k) < sum_upto(b, k),
    decreases k,
{
    if k > 0 {
        lemma_sum_mono(a, b, k - 1);
        if exists|l: int| 0 <= l < k && #[trigger] a[l] < b[l] {
            let l = choose|l: int| 0 <= l < k && #[trigger] a[l] < b[l];
            if l < k - 1 {
                assert(exists|l: int| 0 <= l < k - 1 && #[trigger] a[l] < b[l]);
            }
        }
    }
}

/// Domination makes the total strictly larger.
pub proof fn lemma_dominated_total(a: Seq<nat>, b: Seq<nat>)
    requires
        a.len() == ALPHABET,
        b.len() == ALPHABET,
        dominated(a, b),
    ensures
        total(a) < total(b),
{
    if forall|l: int| 0 <= l < ALPHABET ==> #[trigger] a[l] == b[l] {
        assert(a =~= b);
    }
    let l = choose|l: int| !(0 <= l < ALPHABET ==> #[trigger] a[l] == b[l]);
    assert(a[l] < b[l]);
    lemma_sum_mono(a, b, ALPHABET as int);
}

/// Domination is transitive.
pub proof fn lemma_dominated_trans(a: Seq<nat>, b: Seq<nat>, c: Seq<nat>)
    requires
        a.len() == ALPHABET,
        b.len() == ALPHABET,
        c.len() == ALPHABET,
        dominated(a, b),
        dominated(b, c),
    ensures
        dominated(a, c),
{
    lemma_dominated_total(a, b);
    lemma_dominated_total(b, c);
    assert forall|l: int| 0 <= l < ALPHABET implies #[trigger] a[l] <= c[l] by {
        assert(a[l] <= b[l] && b[l] <= c[l]);
    }
}

proof fn lemma_sum_bump(a: Seq<nat>, b: Seq<nat>, j: int, k: int)
    requires
        0 <= j < ALPHABET,
        0 <= k <= ALPHABET,
        a.len() == ALPHABET,
        b.len() == ALPHABET,
        b[j] == a[j] + 1,
        forall|l: int| 0 <= l < ALPHABET && l != j ==> #[trigger] b[l] == a[l],
    ensures
        sum_upto(b, k) == sum_upto(a, k) + if j < k { 1nat } else { 0nat },
    decreases k,
{
    if k > 0 {
        lemma_sum_bump(a, b, j, k - 1);
    }
}

/// The letters of a word add up to its length.
pub proof fn lemma_total_len(w: Seq<char>)
    requires
        is_word(w),
    ensures
        total(freq(w)) == w.len(),
    decreases w.len(),
{
    if w.len() == 0 {
        assert(sum_upto(freq(w), 0) == 0);
        let z = freq(w);
        assert forall|k: int| 0 <= k <= ALPHABET implies sum_upto(z, k) == 0 by {
            lemma_sum_zero(z, k);
        }
    } else {
        let p = w.drop_last();
        assert(is_word(p)) by {
            assert forall|i: int| 0 <= i < p.len() implies is_lower(#[trigger] p[i]) by {
                assert(p[i] == w[i]);
            }
        }
        lemma_total_len(p);
        assert(is_lower(w[w.len() - 1]));
        lemma_sum_bump(freq(p), freq(w), letter_index(w.last()), ALPHABET as int);
    }
}

proof fn lemma_sum_zero(v: Seq<nat>, k: int)
    requires
        0 <= k <= v.len(),
        forall|l: int| 0 <= l < v.len() ==> #[trigger] v[l] == 0,
    ensures
        sum_upto(v, k) == 0,
    decreases k,
{
    if k > 0 {
        lemma_sum_zero(v, k - 1);
    }
}

/// Whether `a` and `b` hold the same counts.
pub fn same_counts(a: &[usize; 26], b: &[usize; 26]) -> (r: bool)
    ensures
        r == (counts(*a) == counts(*b)),
{
    let mut l: usize = 0;
    while l < ALPHABET
        invariant
            0 <= l <= ALPHABET,
            forall|m: int| 0 <= m < l ==> a[m] == b[m],
        decreases ALPHABET - l,
    {
        if a[l] != b[l] {
            assert(counts(*a)[l as int] != counts(*b)[l as int]);
            return false;
        }
        l = l + 1;
    }
    assert(counts(*a) =~= counts(*b));
    true
}

/// Whether the word counted by `smaller` is dominated by the one counted by `larger`.
pub fn is_dominated_by(smaller: &[usize; 26], larger: &[usize; 26]) -> (r: bool)
    ensures
        r == dominated(counts(*smaller), counts(*larger)),
{
    let mut strictly_less = false;
    let mut l: usize = 0;
    while l < ALPHABET
        invariant
            0 <= l <= ALPHABET,
            forall|m: int| 0 <= m < l ==> smaller[m] <= larger[m],
            strictly_less == exists|m: int| 0 <= m < l && smaller[m] < larger[m],
        decreases ALPHABET - l,
    {
        if smaller[l] > larger[l] {
            assert(!(counts(*smaller)[l as int] <= counts(*larger)[l as int]));
            return false;
        }
        if smaller[l] < larger[l] {
            strictly_less = true;
        }
        l = l + 1;
    }
    proof {
        let a = counts(*smaller);
        let b = counts(*larger);
        if !strictly_less {
            assert(a =~= b);
        } else {
            let m = choose|m: int| 0 <= m < ALPHABET && smaller[m] < larger[m];
            assert(a[m] != b[m]);
        }
    }
    strictly_less
}

} // verus!
