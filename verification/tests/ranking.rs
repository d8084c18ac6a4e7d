use repo_reaper::inverted_index::{InvertedIndex, SourceFile};
use repo_reaper::ranking::order::rank_order;
use repo_reaper::ranking::{Candidate, RankingAlgo, Score, Scored, TermMatch};
use repo_reaper::text_transform::{Globals, Query};

fn globals(n_grams: usize, stop: &[&str]) -> Globals {
    Globals {
        n_grams,
        stop_words: stop.iter().map(|word| word.to_string()).collect(),
    }
}

fn file(path: &str, content: &str) -> SourceFile {
    SourceFile {
        path: path.to_string(),
        content: Some(content.to_string()),
    }
}

fn fox_index(config: &Globals) -> InvertedIndex {
    InvertedIndex::new(
        &vec![
            file("a.txt", "the quick brown fox"),
            file("b.txt", "quick quick fox"),
        ],
        config,
    )
}

fn scored(entries: &[(&str, u64)]) -> Scored {
    Scored(
        entries
            .iter()
            .map(|(path, score)| Score {
                doc_path: path.to_string(),
                score: *score,
            })
            .collect(),
    )
}

fn paths(ranking: &Scored) -> Vec<&str> {
    ranking.0.iter().map(|s| s.doc_path.as_str()).collect()
}

/// An integer that orders as the score does, for scores that are numbers.
fn key(score: f64) -> u64 {
    assert!(!score.is_nan());
    let bits = score.to_bits();
    if bits >> 63 == 1 {
        !bits
    } else {
        bits | (1 << 63)
    }
}

fn idf(num_docs: usize, doc_freq: usize) -> f64 {
    ((num_docs as f64 - doc_freq as f64 + 0.5) / (doc_freq as f64 + 0.5) + 1.0).ln()
}

fn tf_idf(candidate: &Candidate, num_docs: usize) -> f64 {
    candidate
        .matches
        .iter()
        .map(|m| m.term_freq as f64 / candidate.length as f64 * idf(num_docs, m.doc_freq))
        .sum()
}

fn rank_by_tf_idf(index: &InvertedIndex, query: &Query, top_n: usize) -> Option<Scored> {
    let num_docs = index.num_docs();
    let scores = RankingAlgo::TFIDF
        .candidates(index, query)
        .iter()
        .map(|c| Score {
            doc_path: c.doc_path.clone(),
            score: key(tf_idf(c, num_docs)),
        })
        .collect();
    RankingAlgo::rank(Scored(scores), top_n)
}

#[test]
fn strategy_names() {
    assert_eq!(RankingAlgo::from_str("cosim"), Ok(RankingAlgo::CosineSimilarity));
    assert_eq!(RankingAlgo::from_str("bm25"), Ok(RankingAlgo::BM25));
    assert_eq!(RankingAlgo::from_str("tfidf"), Ok(RankingAlgo::TFIDF));
}

#[test]
fn unknown_strategy_name_is_an_error() {
    assert_eq!(
        RankingAlgo::from_str("pagerank"),
        Err("pagerank is not a valid ranking algorithm".to_string())
    );
    assert_eq!(
        RankingAlgo::from_str(""),
        Err(" is not a valid ranking algorithm".to_string())
    );
    assert_eq!(
        RankingAlgo::from_str("BM25"),
        Err("BM25 is not a valid ranking algorithm".to_string())
    );
}

#[test]
fn order_goes_from_the_highest_score_down() {
    assert_eq!(rank_order(&vec![10, 40, 20, 30], 4), vec![1, 3, 2, 0]);
}

#[test]
fn order_is_cut_off_after_top_n() {
    assert_eq!(rank_order(&vec![10, 40, 20, 30], 2), vec![1, 3]);
    assert_eq!(rank_order(&vec![10, 40, 20, 30], 1), vec![1]);
    assert_eq!(rank_order(&vec![10, 40, 20, 30], 0), Vec::<usize>::new());
    assert_eq!(rank_order(&vec![10, 40, 20, 30], 9), vec![1, 3, 2, 0]);
}

#[test]
fn equal_scores_keep_their_order() {
    assert_eq!(rank_order(&vec![5, 7, 5, 7, 5], 5), vec![1, 3, 0, 2, 4]);
    assert_eq!(rank_order(&vec![5, 7, 5, 7, 5], 3), vec![1, 3, 0]);
    assert_eq!(rank_order(&vec![1, 1, 1], 2), vec![0, 1]);
}

#[test]
fn order_of_nothing_is_empty() {
    assert_eq!(rank_order(&Vec::new(), 3), Vec::<usize>::new());
}

#[test]
fn order_at_the_ends_of_the_range() {
    assert_eq!(rank_order(&vec![0, u64::MAX, 1], 3), vec![1, 2, 0]);
}

#[test]
fn rank_sorts_and_truncates() {
    let ranking = RankingAlgo::rank(scored(&[("a", 3), ("b", 9), ("c", 5), ("d", 9)]), 3);
    assert_eq!(ranking, Some(scored(&[("b", 9), ("d", 9), ("c", 5)])));
}

#[test]
fn rank_of_nothing_is_no_ranking() {
    assert_eq!(RankingAlgo::rank(Scored(Vec::new()), 10), None);
    assert_eq!(RankingAlgo::rank(Scored(Vec::new()), 0), None);
}

#[test]
fn rank_cut_off_at_nothing_is_an_empty_ranking() {
    assert_eq!(
        RankingAlgo::rank(scored(&[("a", 3), ("b", 9)]), 0),
        Some(Scored(Vec::new()))
    );
}

#[test]
fn rank_twice_gives_the_same_list() {
    let config = globals(1, &["the"]);
    let index = fox_index(&config);
    let query = Query::new("quick fox brown", &config);
    let first = rank_by_tf_idf(&index, &query, 10);
    let second = rank_by_tf_idf(&index, &query, 10);
    assert!(first.is_some());
    assert_eq!(first, second);
}

#[test]
fn candidates_are_the_documents_with_a_query_term() {
    let config = globals(1, &["the"]);
    let index = InvertedIndex::new(
        &vec![
            file("a.txt", "the quick brown fox"),
            file("b.txt", "quick quick fox"),
            file("c.txt", "lazy dog"),
        ],
        &config,
    );
    let query = Query::new("brown fox", &config);
    let found = RankingAlgo::TFIDF.candidates(&index, &query);
    let docs: Vec<&str> = found.iter().map(|c| c.doc_path.as_str()).collect();
    assert_eq!(docs, vec!["a.txt", "b.txt"]);
    assert_eq!(found[0].length, 3);
    assert_eq!(
        found[0].matches,
        vec![
            TermMatch { term_freq: 1, doc_freq: 1 },
            TermMatch { term_freq: 1, doc_freq: 2 }
        ]
    );
    assert_eq!(found[1].length, 3);
    assert_eq!(found[1].matches, vec![TermMatch { term_freq: 1, doc_freq: 2 }]);
}

#[test]
fn candidates_count_a_document_once() {
    let config = globals(1, &[]);
    let index = fox_index(&config);
    let query = Query::new("quick fox the", &config);
    for algo in [RankingAlgo::TFIDF, RankingAlgo::BM25, RankingAlgo::CosineSimilarity] {
        let found = algo.candidates(&index, &query);
        let docs: Vec<&str> = found.iter().map(|c| c.doc_path.as_str()).collect();
        assert_eq!(docs, vec!["a.txt", "b.txt"]);
        assert_eq!(found[0].matches.len(), 3);
        assert_eq!(
            found[1].matches,
            vec![
                TermMatch { term_freq: 2, doc_freq: 2 },
                TermMatch { term_freq: 1, doc_freq: 2 }
            ]
        );
    }
}

#[test]
fn term_frequencies_are_read_for_cosine_similarity_only() {
    let config = globals(1, &["the"]);
    let index = fox_index(&config);
    let query = Query::new("fox", &config);
    let cosine = RankingAlgo::CosineSimilarity.candidates(&index, &query);
    assert_eq!(cosine[0].doc_path, "a.txt");
    assert_eq!(cosine[0].term_freqs, vec![1, 1, 1]);
    assert_eq!(cosine[1].doc_path, "b.txt");
    assert_eq!(cosine[1].term_freqs, vec![2, 1]);
    for algo in [RankingAlgo::TFIDF, RankingAlgo::BM25] {
        for candidate in algo.candidates(&index, &query) {
            assert!(candidate.term_freqs.is_empty());
        }
    }
}

#[test]
fn unseen_term_gives_no_candidates() {
    let config = globals(1, &["the"]);
    let index = fox_index(&config);
    let query = Query::new("zebra", &config);
    assert!(!query.is_empty());
    for algo in [RankingAlgo::TFIDF, RankingAlgo::BM25, RankingAlgo::CosineSimilarity] {
        assert!(algo.candidates(&index, &query).is_empty());
    }
    assert_eq!(rank_by_tf_idf(&index, &query, 10), None);
}

#[test]
fn empty_query_gives_no_ranking() {
    let config = globals(1, &["the"]);
    let index = fox_index(&config);
    for text in ["", "   ", "the", "?!"] {
        let query = Query::new(text, &config);
        assert!(query.is_empty());
        for algo in [RankingAlgo::TFIDF, RankingAlgo::BM25, RankingAlgo::CosineSimilarity] {
            let found = algo.candidates(&index, &query);
            assert!(found.is_empty());
            let scores = found
                .iter()
                .map(|c| Score { doc_path: c.doc_path.clone(), score: 0 })
                .collect();
            assert_eq!(RankingAlgo::rank(Scored(scores), 10), None);
        }
    }
}

#[test]
fn tf_idf_ranks_the_higher_term_frequency_first() {
    let config = globals(1, &["the"]);
    let index = fox_index(&config);
    let query = Query::new("quick fox", &config);
    let ranking = rank_by_tf_idf(&index, &query, 10).unwrap();
    assert_eq!(paths(&ranking), vec!["b.txt", "a.txt"]);
    let found = RankingAlgo::TFIDF.candidates(&index, &query);
    let a = tf_idf(&found[0], index.num_docs());
    let b = tf_idf(&found[1], index.num_docs());
    assert!((a - 2.0 / 3.0 * 1.2f64.ln()).abs() < 1e-12);
    assert!((b - 1.2f64.ln()).abs() < 1e-12);
}

#[test]
fn emptied_document_is_no_longer_found() {
    let config = globals(1, &["the"]);
    let mut index = fox_index(&config);
    let query = Query::new("brown", &config);
    let before = rank_by_tf_idf(&index, &query, 10).unwrap();
    assert_eq!(paths(&before), vec!["a.txt"]);
    index.update("a.txt", Some(""), &config);
    assert_eq!(rank_by_tf_idf(&index, &query, 10), None);
    let both = Query::new("quick", &config);
    let after = rank_by_tf_idf(&index, &both, 10).unwrap();
    assert_eq!(paths(&after), vec!["b.txt"]);
}

#[test]
fn different_configurations_find_nothing() {
    let index = fox_index(&globals(2, &["the"]));
    let query = Query::new("quick fox", &globals(1, &["the"]));
    assert!(RankingAlgo::BM25.candidates(&index, &query).is_empty());
}
