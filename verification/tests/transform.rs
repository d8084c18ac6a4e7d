use std::collections::HashSet;

use repo_reaper::inverted_index::Term;
use repo_reaper::text_transform::tokens::{split_words, tokenize};
use repo_reaper::text_transform::transform::{n_gram_terms, stem_tokens};
use repo_reaper::text_transform::{n_gram_transform, Globals};

fn get_stop_words() -> Vec<String> {
    stop_words::get(stop_words::LANGUAGE::English)
        .iter()
        .map(|word| word.to_string())
        .collect()
}

fn to_hash_set(vec: Vec<Term>) -> HashSet<Term> {
    vec.into_iter().collect()
}

#[test]
fn n_gram_transform_simple_sentence() {
    assert_eq!(
        to_hash_set(n_gram_transform(
            "The quick brown fox",
            &Globals {
                n_grams: 1,
                stop_words: get_stop_words(),
            }
        )),
        to_hash_set(vec![
            Term("quick".to_string()),
            Term("brown".to_string()),
            Term("fox".to_string())
        ])
    );
}

#[test]
fn n_gram_transform_with_punctuation() {
    assert_eq!(
        to_hash_set(n_gram_transform(
            "Jumps over the lazy dog!123",
            &Globals {
                n_grams: 1,
                stop_words: get_stop_words(),
            }
        )),
        to_hash_set(vec![
            Term("jump".to_string()),
            Term("lazi".to_string()),
            Term("dog".to_string()),
            Term("123".to_string())
        ])
    );
}

#[test]
fn n_gram_transform_with_special_characters() {
    assert_eq!(
        to_hash_set(n_gram_transform(
            "Rust 2023! @#%^&*",
            &Globals {
                n_grams: 1,
                stop_words: get_stop_words(),
            }
        )),
        to_hash_set(vec![Term("rust".to_string()), Term("2023".to_string())])
    );
}

#[test]
fn n_gram_transform_empty_string() {
    assert_eq!(
        to_hash_set(n_gram_transform(
            "",
            &Globals {
                n_grams: 1,
                stop_words: get_stop_words(),
            }
        )),
        HashSet::<Term>::new()
    );
}

#[test]
fn n_gram_transform_bi_grams() {
    assert_eq!(
        to_hash_set(n_gram_transform(
            "The quick brown fox",
            &Globals {
                n_grams: 2,
                stop_words: get_stop_words(),
            }
        )),
        to_hash_set(vec![
            Term("quick brown".to_string()),
            Term("brown fox".to_string())
        ])
    );
}

#[test]
fn n_gram_transform_n_larger_than_words() {
    assert_eq!(
        to_hash_set(n_gram_transform(
            "The quick",
            &Globals {
                n_grams: 3,
                stop_words: get_stop_words(),
            }
        )),
        HashSet::<Term>::new()
    );
}

#[test]
fn n_gram_transform_empty_string_bi_gram() {
    assert_eq!(
        to_hash_set(n_gram_transform(
            "",
            &Globals {
                n_grams: 2,
                stop_words: get_stop_words(),
            }
        )),
        HashSet::<Term>::new()
    );
}

fn globals(n_grams: usize, stop: &[&str]) -> Globals {
    Globals {
        n_grams,
        stop_words: stop.iter().map(|word| word.to_string()).collect(),
    }
}

fn term_strings(terms: Vec<Term>) -> Vec<String> {
    terms.into_iter().map(|term| term.0).collect()
}

#[test]
fn terms_keep_their_order_and_their_repeats() {
    assert_eq!(
        term_strings(n_gram_transform("quick quick fox", &globals(1, &["the"]))),
        vec!["quick", "quick", "fox"]
    );
}

#[test]
fn windows_slide_one_token_at_a_time() {
    assert_eq!(
        term_strings(n_gram_transform("a b c d", &globals(3, &[]))),
        vec!["a b c", "b c d"]
    );
}

#[test]
fn window_count_is_tokens_less_width_plus_one() {
    let text = "one two three four five six seven";
    for n in 1..=9usize {
        let expected = if 7 >= n { 7 - n + 1 } else { 0 };
        assert_eq!(n_gram_transform(text, &globals(n, &[])).len(), expected);
    }
}

#[test]
fn window_as_wide_as_the_text_gives_one_term() {
    assert_eq!(
        term_strings(n_gram_transform("quick brown fox", &globals(3, &[]))),
        vec!["quick brown fox"]
    );
}

#[test]
fn stop_words_are_dropped_before_windows_are_formed() {
    assert_eq!(
        term_strings(n_gram_transform("quick the brown", &globals(2, &["the"]))),
        vec!["quick brown"]
    );
}

#[test]
fn stop_words_match_whole_words_only() {
    assert_eq!(
        term_strings(n_gram_transform("the theme", &globals(1, &["the"]))),
        vec!["theme"]
    );
}

#[test]
fn stop_words_are_matched_before_stemming() {
    // "being" is no stop word here, and its stem is one.
    assert_eq!(
        term_strings(n_gram_transform("being", &globals(1, &["be"]))),
        vec!["be"]
    );
}

#[test]
fn words_are_stemmed() {
    assert_eq!(
        term_strings(n_gram_transform("running foxes", &globals(1, &[]))),
        vec!["run", "fox"]
    );
}

#[test]
fn text_is_folded_to_lower_case() {
    assert_eq!(
        term_strings(n_gram_transform("QUICK Fox", &globals(1, &[]))),
        vec!["quick", "fox"]
    );
    assert_eq!(
        term_strings(n_gram_transform("THE fox", &globals(1, &["the"]))),
        vec!["fox"]
    );
}

#[test]
fn terms_hold_letters_digits_and_single_spaces() {
    let terms = n_gram_transform(
        "  Hello,   world!! 42 --- times\tover\n",
        &globals(2, &[]),
    );
    assert_eq!(
        term_strings(terms.clone()),
        vec!["hello world", "world 42", "42 time", "time over"]
    );
    for term in terms {
        assert!(term
            .0
            .chars()
            .all(|c| c == ' ' || (c.is_alphanumeric() && !c.is_uppercase())));
        assert!(!term.0.starts_with(' ') && !term.0.ends_with(' '));
        assert!(!term.0.contains("  "));
    }
}

#[test]
fn letters_of_all_scripts_are_word_characters() {
    assert_eq!(
        term_strings(n_gram_transform("naïve café—日本語", &globals(1, &[]))),
        vec!["naïv", "café", "日本語"]
    );
}

#[test]
fn only_separators_give_no_terms() {
    assert!(n_gram_transform(" ,.;!? \n\t", &globals(1, &[])).is_empty());
}

#[test]
fn split_words_cuts_at_every_run_of_separators() {
    assert_eq!(split_words("ab,,cd e"), vec!["ab", "cd", "e"]);
    assert_eq!(split_words(",ab,"), vec!["ab"]);
    assert_eq!(split_words("ab"), vec!["ab"]);
    assert_eq!(split_words(""), Vec::<String>::new());
    assert_eq!(split_words("AbC"), vec!["AbC"]);
}

#[test]
fn tokenize_folds_case_and_splits() {
    assert_eq!(tokenize("The Quick-Brown"), vec!["the", "quick", "brown"]);
}

#[test]
fn stem_tokens_counts_every_surviving_token() {
    assert_eq!(
        stem_tokens("the quick quick foxes", &globals(5, &["the"])),
        vec!["quick", "quick", "fox"]
    );
}

#[test]
fn n_gram_terms_join_with_single_spaces() {
    let tokens: Vec<String> = vec!["a".to_string(), "b".to_string(), "c".to_string()];
    assert_eq!(term_strings(n_gram_terms(&tokens, 1)), vec!["a", "b", "c"]);
    assert_eq!(term_strings(n_gram_terms(&tokens, 2)), vec!["a b", "b c"]);
    assert_eq!(term_strings(n_gram_terms(&tokens, 3)), vec!["a b c"]);
    assert!(n_gram_terms(&tokens, 4).is_empty());
}

#[test]
fn is_stop_word_looks_for_the_whole_word() {
    let config = globals(1, &["the", "a"]);
    assert!(config.is_stop_word(&"the".to_string()));
    assert!(config.is_stop_word(&"a".to_string()));
    assert!(!config.is_stop_word(&"th".to_string()));
    assert!(!config.is_stop_word(&"".to_string()));
}
