use repo_reaper::inverted_index::Term;
use repo_reaper::text_transform::{Globals, Query};

fn globals(n_grams: usize, stop: &[&str]) -> Globals {
    Globals {
        n_grams,
        stop_words: stop.iter().map(|word| word.to_string()).collect(),
    }
}

fn texts(query: &Query) -> Vec<String> {
    query.terms().iter().map(|term| term.0.clone()).collect()
}

#[test]
fn query_terms_collapse_repeats() {
    let query = Query::new("quick fox quick quick", &globals(1, &[]));
    assert_eq!(texts(&query), vec!["quick", "fox"]);
}

#[test]
fn query_uses_the_normaliser_of_the_documents() {
    let query = Query::new("The Foxes are RUNNING", &globals(1, &["the", "are"]));
    assert_eq!(texts(&query), vec!["fox", "run"]);
}

#[test]
fn query_of_bigrams() {
    let query = Query::new("quick brown fox", &globals(2, &[]));
    assert_eq!(texts(&query), vec!["quick brown", "brown fox"]);
}

#[test]
fn empty_text_gives_an_empty_query() {
    assert!(Query::new("", &globals(1, &[])).is_empty());
    assert!(Query::new(" \n", &globals(1, &[])).is_empty());
    assert!(Query::new("the", &globals(1, &["the"])).is_empty());
    assert!(Query::new("fox", &globals(2, &[])).is_empty());
    assert!(!Query::new("fox", &globals(1, &[])).is_empty());
}

#[test]
fn query_from_terms_keeps_first_occurrences() {
    let query = Query::from_terms(vec![
        Term("b".to_string()),
        Term("a".to_string()),
        Term("b".to_string()),
        Term("c".to_string()),
        Term("a".to_string()),
    ]);
    assert_eq!(texts(&query), vec!["b", "a", "c"]);
}

#[test]
fn query_as_one_line() {
    assert_eq!(Query::new("quick fox quick", &globals(1, &[])).to_text(), "quick fox");
    assert_eq!(Query::new("", &globals(1, &[])).to_text(), "");
    assert_eq!(Query::new("fox", &globals(1, &[])).to_text(), "fox");
}

#[test]
fn cloned_query_has_the_same_terms() {
    let query = Query::new("quick brown fox", &globals(1, &[]));
    assert_eq!(texts(&query.clone()), texts(&query));
}
