use word_skyline::bitset::remove_anagrams_and_sub_anagrams_bitset;
use word_skyline::brute_force::{is_anagram, is_sub_anagram, remove_anagrams_and_sub_anagrams_brute_force};
use word_skyline::letters::{get_frequency_vector, is_dominated_by, same_counts};
use word_skyline::pairwise::remove_anagrams_and_sub_anagrams_pairwise;
use word_skyline::{filter_duplicates_and_subsets, try_filter, words_valid, FilterError, Strategy};

const ALL: [Strategy; 3] = [Strategy::BruteForce, Strategy::PairwiseVector, Strategy::IndexedBucket];

fn words(list: &[&str]) -> Vec<String> {
    list.iter().map(|s| s.to_string()).collect()
}

fn sorted(mut v: Vec<String>) -> Vec<String> {
    v.sort();
    v
}

fn check_all(input: &[&str], expected: &[&str]) {
    let input = words(input);
    let expected = sorted(words(expected));
    for s in ALL {
        let got = filter_duplicates_and_subsets(&input, s);
        assert_eq!(sorted(got), expected, "strategy {:?}", s);
    }
}

#[test]
fn scenario_basic_domination() {
    check_all(&["a", "ab", "ba", "abc", "abcd"], &["abcd"]);
}

#[test]
fn scenario_disjoint_words() {
    check_all(&["abc", "def", "ghi"], &["abc", "def", "ghi"]);
}

#[test]
fn scenario_repeated_letter_chain() {
    check_all(&["a", "aa", "aaa"], &["aaa"]);
}

#[test]
fn scenario_anagram_pair_and_stranger() {
    check_all(&["cat", "act", "dog"], &["dog"]);
}

#[test]
fn scenario_three_way_anagram() {
    check_all(&["listen", "silent", "enlist"], &[]);
}

#[test]
fn scenario_empty_input() {
    check_all(&[], &[]);
}

#[test]
fn identical_words_are_anagrams() {
    check_all(&["ab", "ab", "c"], &["c"]);
}

#[test]
fn brute_force_keeps_list_order() {
    let input = words(&["xyz", "b", "bc", "q"]);
    assert_eq!(remove_anagrams_and_sub_anagrams_brute_force(&input), words(&["xyz", "bc", "q"]));
}

#[test]
fn pairwise_keeps_list_order() {
    let input = words(&["xyz", "b", "bc", "q"]);
    assert_eq!(remove_anagrams_and_sub_anagrams_pairwise(&input), words(&["xyz", "bc", "q"]));
}

#[test]
fn bitset_returns_longest_first() {
    let input = words(&["q", "xyz", "b", "bc"]);
    let got = remove_anagrams_and_sub_anagrams_bitset(&input);
    assert_eq!(got.len(), 3);
    assert_eq!(got[0], "xyz");
    assert_eq!(got[1], "bc");
    assert_eq!(got[2], "q");
}

#[test]
fn dominator_with_anagram_splits_the_strategies() {
    // "a" is dominated only by "ab" and "ba", which are anagrams of each other.
    let input = words(&["a", "ab", "ba"]);
    assert_eq!(remove_anagrams_and_sub_anagrams_brute_force(&input), Vec::<String>::new());
    assert_eq!(remove_anagrams_and_sub_anagrams_pairwise(&input), words(&["a"]));
    assert_eq!(remove_anagrams_and_sub_anagrams_bitset(&input), words(&["a"]));
}

#[test]
fn strategies_agree_on_mixed_list() {
    let input = words(&["stop", "pots", "top", "opt", "post", "spot", "tops", "zebra", "bra", "arb", "ze", "a"]);
    let b = sorted(remove_anagrams_and_sub_anagrams_brute_force(&input));
    let p = sorted(remove_anagrams_and_sub_anagrams_pairwise(&input));
    let x = sorted(remove_anagrams_and_sub_anagrams_bitset(&input));
    assert_eq!(b, p);
    assert_eq!(p, x);
    assert_eq!(b, words(&["zebra"]));
}

#[test]
fn filtering_twice_changes_nothing() {
    let input = words(&["a", "ab", "ba", "abc", "abcd", "xy", "xyz", "q", "qq"]);
    for s in ALL {
        let once = filter_duplicates_and_subsets(&input, s);
        let twice = filter_duplicates_and_subsets(&once, s);
        assert_eq!(sorted(once), sorted(twice), "strategy {:?}", s);
    }
}

#[test]
fn anagram_members_never_survive() {
    let input = words(&["tea", "eat", "ate", "z"]);
    for s in ALL {
        let got = filter_duplicates_and_subsets(&input, s);
        for w in ["tea", "eat", "ate"] {
            assert!(!got.iter().any(|g| g == w), "strategy {:?}", s);
        }
    }
}

#[test]
fn survivors_are_not_dominated() {
    let input = words(&["ab", "abc", "cd", "bcd", "e", "ee", "f"]);
    for s in ALL {
        let got = filter_duplicates_and_subsets(&input, s);
        assert_eq!(sorted(got.clone()), words(&["abc", "bcd", "ee", "f"]));
        for w in &got {
            let fw = get_frequency_vector(w);
            for other in &input {
                assert!(!is_dominated_by(&fw, &get_frequency_vector(other)));
            }
        }
    }
}

#[test]
fn permuting_input_keeps_survivor_set() {
    let a = words(&["a", "ab", "ba", "abc", "abcd", "xyz", "zz"]);
    let b = words(&["zz", "abcd", "ba", "xyz", "a", "abc", "ab"]);
    for s in ALL {
        assert_eq!(
            sorted(filter_duplicates_and_subsets(&a, s)),
            sorted(filter_duplicates_and_subsets(&b, s)),
            "strategy {:?}",
            s
        );
    }
}

#[test]
fn counts_beyond_the_buckets_are_still_compared() {
    let seventeen = "a".repeat(17);
    let eighteen = "a".repeat(18);
    let with_b = format!("{}b", "a".repeat(20));
    let input = vec![seventeen.clone(), eighteen.clone(), "b".to_string()];
    for s in ALL {
        assert_eq!(sorted(filter_duplicates_and_subsets(&input, s)), sorted(vec![eighteen.clone(), "b".to_string()]));
    }
    let input = vec![seventeen, eighteen, "b".to_string(), with_b.clone()];
    for s in ALL {
        assert_eq!(filter_duplicates_and_subsets(&input, s), vec![with_b.clone()]);
    }
}

#[test]
fn frequency_vector_counts_each_letter() {
    let f = get_frequency_vector("banana");
    assert_eq!(f[0], 3);
    assert_eq!(f[1], 1);
    assert_eq!(f[13], 2);
    assert_eq!(f.iter().sum::<usize>(), 6);
    assert_eq!(get_frequency_vector("")[25], 0);
    assert_eq!(get_frequency_vector("zz")[25], 2);
}

#[test]
fn dominance_needs_a_strict_difference() {
    let a = get_frequency_vector("ab");
    let ab2 = get_frequency_vector("ba");
    let abc = get_frequency_vector("abc");
    let ac = get_frequency_vector("ac");
    assert!(is_dominated_by(&a, &abc));
    assert!(!is_dominated_by(&abc, &a));
    assert!(!is_dominated_by(&a, &ab2));
    assert!(!is_dominated_by(&a, &ac));
    assert!(same_counts(&a, &ab2));
    assert!(!same_counts(&a, &ac));
}

#[test]
fn pairwise_word_checks() {
    assert!(is_anagram("listen", "silent"));
    assert!(!is_anagram("listen", "listens"));
    assert!(is_sub_anagram("ten", "listen"));
    assert!(!is_sub_anagram("listen", "silent"));
    assert!(!is_sub_anagram("tent", "listen"));
}

#[test]
fn invalid_character_is_reported() {
    let input = words(&["abc", "aBc"]);
    assert!(!words_valid(&input));
    for s in ALL {
        assert_eq!(try_filter(&input, s), Err(FilterError::InvalidCharacter));
    }
    assert_eq!(try_filter(&words(&["caf\u{e9}"]), Strategy::BruteForce), Err(FilterError::InvalidCharacter));
    assert_eq!(try_filter(&words(&["a b"]), Strategy::PairwiseVector), Err(FilterError::InvalidCharacter));
}

#[test]
fn valid_input_is_filtered() {
    let input = words(&["cat", "act", "dog"]);
    assert!(words_valid(&input));
    assert_eq!(try_filter(&input, Strategy::IndexedBucket), Ok(words(&["dog"])));
}
