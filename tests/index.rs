use quicksearch::quicksearch::QuickSearch;
use quicksearch::string_sim::Metric;

#[test]
fn token_indexer_works() {
    let names = vec!["Nichole Jenkins".to_string(), "John Smith".to_string()];
    let qs = QuickSearch::new(&names);
    let name = "Nicky Jenkins";
    if let Some(results) = qs.find(name) {
        assert_eq!(results.len(), 1, "Basic indexing failed");
    }
    let name = "John Jenkins";
    if let Some(results) = qs.find(name) {
        assert_eq!(results.len(), 2, "Not all possible values returned");
    }
    let name = "Not Gonna Match";
    assert!(qs.find(name).is_none(), "Found a value where there should be None");
}

#[test]
fn ranking_works() {
    let names = vec!["Nichole Jenkins".to_string(), "J. Smith".to_string()];
    let qs = QuickSearch::new(&names);
    let name = "Nichole Smith";
    if let Some(results) = qs.find(name) {
        assert_eq!(results[0].0, "Nichole Jenkins");
    }
}

#[test]
fn shortlists_are_found() {
    let names = vec!["Nichole Jenkins".to_string(), "John Smith".to_string()];
    let qs = QuickSearch::new(&names);
    assert_eq!(qs.find("Nicky Jenkins").expect("shared token").len(), 1);
    let both = qs.find("John Jenkins").expect("shared tokens");
    assert_eq!(both.len(), 2);
    assert!(both[0].1.den > 0 && both[1].1.den > 0);
    assert!(!both[0].1.less_than(&both[1].1));
    let matches = qs.get_token_matches("john jenkins").expect("shared tokens");
    assert_eq!(matches.len(), 2);
    assert!(qs.get_token_matches("Not Gonna Match").is_none());
}

#[test]
fn find_is_repeatable() {
    let names = vec![
        "Nichole Jenkins".to_string(),
        "J. Smith".to_string(),
        "John Smith".to_string(),
        "Smith-Jones".to_string(),
    ];
    let qs = QuickSearch::new(&names);
    let first = qs.find("Nichole Smith").expect("shared token");
    let second = qs.find("Nichole Smith").expect("shared token");
    assert_eq!(first.len(), second.len());
    for (a, b) in first.iter().zip(second.iter()) {
        assert_eq!(a.0, b.0);
        assert!(a.1.same_value(&b.1));
    }
    for w in first.windows(2) {
        assert!(!w[0].1.less_than(&w[1].1));
    }
}

#[test]
fn duplicate_names_are_listed_once() {
    let names = vec!["John Smith".to_string(), "John Smith".to_string(), "".to_string()];
    let qs = QuickSearch::new(&names);
    let results = qs.find("Smith").expect("shared token");
    assert_eq!(results.len(), 1);
    assert!(qs.find("").is_none());
}

#[test]
fn identical_name_scores_one() {
    let names = vec!["Ana Lopez".to_string(), "Analia Lopez".to_string()];
    let qs = QuickSearch::new(&names);
    let results = qs.find("Ana Lopez").expect("shared token");
    assert_eq!(results[0].0, "Ana Lopez");
    assert_eq!(results[0].1.num, results[0].1.den);
}

#[test]
fn find_with_other_metrics() {
    let names = vec!["Coast Guard".to_string(), "Toast Guard".to_string()];
    let qs = QuickSearch::new(&names);
    let results = qs.find_with("Coast Guard", Metric::DamerauLevenshtein).expect("shared token");
    assert_eq!(results[0].0, "Coast Guard");
    assert_eq!(results[0].1.num, results[0].1.den);
    assert_eq!((results[1].1.num, results[1].1.den), (10, 11));
    let trigrams = qs.find_with("Coast Guard", Metric::NgramJaccard(3)).expect("shared token");
    assert_eq!(trigrams[0].0, "Coast Guard");
    let jaro = qs.find_with("Toast Guard", Metric::Jaro).expect("shared token");
    assert_eq!(jaro[0].0, "Toast Guard");
}

#[test]
fn normalize_transliterates_strips_and_lowercases() {
    assert_eq!(QuickSearch::normalize("Jean-Luc O'Brien Jr."), "jean luc obrien jr");
    assert_eq!(QuickSearch::normalize("Æneid"), "aeneid");
    assert_eq!(QuickSearch::normalize("ÉTUDE"), "etude");
    assert_eq!(QuickSearch::normalize(""), "");
}

#[test]
fn tokenize_splits_words_and_collapses_repeats() {
    let mut tokens = QuickSearch::tokenize("Hello, hello WORLD! Zoë");
    tokens.sort();
    assert_eq!(tokens, vec!["hello".to_string(), "world".to_string(), "zoe".to_string()]);
    assert!(QuickSearch::tokenize("").is_empty());
    assert!(QuickSearch::tokenize("  ,;  ").is_empty());
}

#[test]
fn accented_query_matches_plain_name() {
    let names = vec!["Jose Alvarez".to_string()];
    let qs = QuickSearch::new(&names);
    let results = qs.find("José Álvarez").expect("transliterated tokens");
    assert_eq!(results.len(), 1);
    assert_eq!(results[0].1.num, results[0].1.den);
}
