use quicksearch::score::Score;
use quicksearch::string_sim::{jaro, jaro_winkler, ngram_jaccard, symmetric_damerau_levenshtein_norm};
use quicksearch::util::{jaccard_similarity, string_profile};
use std::collections::HashSet;

fn value(s: Score) -> f64 {
    s.num as f64 / s.den as f64
}

fn close(a: f64, b: f64, epsilon: f64) -> bool {
    (a - b).abs() <= epsilon
}

#[test]
fn jaccard_similarity_works() {
    let a = HashSet::from([1, 2]);
    let b = HashSet::from([1, 2, 3]);

    assert!(close(value(jaccard_similarity(&a, &b)), 0.667, 0.001), "Algorithm is broken");
    assert!(
        jaccard_similarity(&a, &b).same_value(&jaccard_similarity(&b, &a)),
        "Not symmetric within 5 units least precision"
    );
}

#[test]
fn jaccard_of_two_empty_sets_is_one() {
    let a: HashSet<u64> = HashSet::new();
    let b: HashSet<u64> = HashSet::new();
    let s = jaccard_similarity(&a, &b);
    assert_eq!(s.num, s.den);
}

#[test]
fn jaccard_exact_fraction() {
    let a = HashSet::from([1u64, 2, 3, 4]);
    let b = HashSet::from([3u64, 4, 5]);
    let s = jaccard_similarity(&a, &b);
    assert_eq!((s.num, s.den), (2, 5));
}

#[test]
fn jaro_works() {
    let a = "Martha";
    let b = "Marhta";
    assert!(close(value(jaro(a, b)), 0.944, 0.001));
}

#[test]
fn jaro_of_identical_and_empty() {
    let s = jaro("Jenkins", "Jenkins");
    assert_eq!(s.num, s.den);
    let e = jaro("", "");
    assert_eq!(e.num, e.den);
    let x = jaro("a", "a");
    assert_eq!(x.num, x.den);
}

#[test]
fn jaro_without_matches_is_zero() {
    let s = jaro("abc", "xyz");
    assert_eq!(s.num, 0);
    let t = jaro("", "abc");
    assert_eq!(t.num, 0);
}

#[test]
fn jaro_counts_grapheme_clusters() {
    // "e" with a combining acute accent is one cluster.
    let s = jaro("e\u{301}x", "e\u{301}x");
    assert_eq!(s.num, s.den);
    let t = jaro("e\u{301}", "e");
    assert_eq!(t.num, 0);
}

#[test]
fn jaro_winkler_works() {
    let a = "Martha";
    let b = "Marhta";
    assert!(close(value(jaro_winkler(a, b)), 0.961, 0.001));
}

#[test]
fn jaro_winkler_crave_crate() {
    assert!(close(value(jaro_winkler("CRAVE", "CRATE")), 0.907, 0.001));
}

#[test]
fn jaro_winkler_short_inputs() {
    let s = jaro_winkler("ab", "ab");
    assert_eq!(s.num, s.den);
    let t = jaro_winkler("", "");
    assert_eq!(t.num, t.den);
    assert!(close(value(jaro_winkler("a", "b")), 0.0, 1e-12));
}

#[test]
fn ngram_jaccard_works() {
    let a = "abc";
    let b = "abcabc";

    assert!(close(value(ngram_jaccard(a, b, 1)), 1.0, 0.001), "Width=1 failed");
    assert!(close(value(ngram_jaccard(a, b, 2)), 0.667, 0.001), "Width=2 failed");
    assert!(close(value(ngram_jaccard(a, b, 3)), 0.333, 0.001), "Width=3 failed");
}

#[test]
fn ngram_jaccard_of_itself_is_one() {
    for w in 1..5 {
        let s = ngram_jaccard("abcd", "abcd", w);
        assert_eq!(s.num, s.den);
    }
}

#[test]
fn ngram_jaccard_shorter_than_width() {
    let s = ngram_jaccard("ab", "xy", 3);
    assert_eq!(s.num, s.den);
    let t = ngram_jaccard("ab", "abc", 3);
    assert_eq!(t.num, 0);
}

#[test]
fn symmetric_damerau_levenshtein_norm_works() {
    let a = "Coast";
    let b = "Toast";
    assert!(close(value(symmetric_damerau_levenshtein_norm(a, b)), 0.8, 0.001), "Basic scoring failed");
    let a = "Taco";
    let b = "Taco";
    assert!(close(value(symmetric_damerau_levenshtein_norm(a, b)), 1.0, 0.001), "Equality failed");
    let a = "";
    let b = "Taco";
    assert!(close(value(symmetric_damerau_levenshtein_norm(a, b)), 0.0, 0.001), "Empty case failed");
    let a = "Drat";
    let b = "Darth";
    assert!(close(value(symmetric_damerau_levenshtein_norm(a, b)), 0.6, 0.001), "Transposition failed");

    assert!(
        symmetric_damerau_levenshtein_norm(a, b).same_value(&symmetric_damerau_levenshtein_norm(b, a)),
        "Not symmetric within 5 units least precision"
    );
}

#[test]
fn damerau_levenshtein_of_two_empty_strings_is_zero() {
    let s = symmetric_damerau_levenshtein_norm("", "");
    assert_eq!(s.num, 0);
}

#[test]
fn damerau_levenshtein_adjacent_transposition_costs_one() {
    let s = symmetric_damerau_levenshtein_norm("abcd", "abdc");
    assert_eq!((s.num, s.den), (3, 4));
}

#[test]
fn score_comparison() {
    let half = Score { num: 1, den: 2 };
    let third = Score { num: 2, den: 6 };
    assert!(third.less_than(&half));
    assert!(!half.less_than(&third));
    assert!(Score { num: 3, den: 6 }.same_value(&half));
    let big = Score { num: u128::MAX - 1, den: u128::MAX };
    let bigger = Score { num: u128::MAX - 2, den: u128::MAX - 1 };
    assert!(bigger.less_than(&big));
}

#[test]
fn string_profile_ranks_first_appearance() {
    assert_eq!(string_profile("abca"), "0120");
    assert_eq!(string_profile(""), "");
    assert_eq!(string_profile("abcdefghijkla"), "012345678910110");
    assert_eq!(string_profile("e\u{301}e\u{301}x"), "001");
}
