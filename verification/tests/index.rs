use repo_reaper::inverted_index::{
    DocumentLength, InvertedIndex, MeanLength, SourceFile, Term, TermDocument,
};
use repo_reaper::text_transform::Globals;

fn globals(n_grams: usize, stop: &[&str]) -> Globals {
    Globals {
        n_grams,
        stop_words: stop.iter().map(|word| word.to_string()).collect(),
    }
}

fn file(path: &str, content: &str) -> SourceFile {
    SourceFile {
        path: path.to_string(),
        content: Some(content.to_string()),
    }
}

fn unreadable(path: &str) -> SourceFile {
    SourceFile {
        path: path.to_string(),
        content: None,
    }
}

fn term(text: &str) -> Term {
    Term(text.to_string())
}

fn stats(length: usize, term_freq: usize) -> Option<TermDocument> {
    Some(TermDocument { length, term_freq })
}

/// Every record of the index as (term, document, length, frequency), sorted.
fn records(index: &InvertedIndex) -> Vec<(String, String, usize, usize)> {
    let mut all = Vec::new();
    for entry in index.entries() {
        for posting in &entry.postings {
            all.push((
                entry.term.0.clone(),
                posting.doc_path.clone(),
                posting.stats.length,
                posting.stats.term_freq,
            ));
        }
    }
    all.sort();
    all
}

fn two_files() -> Vec<SourceFile> {
    vec![
        file("a.txt", "the quick brown fox"),
        file("b.txt", "quick quick fox"),
    ]
}

#[test]
fn build_records_every_term_of_every_file() {
    let index = InvertedIndex::new(&two_files(), &globals(1, &["the"]));
    assert_eq!(
        records(&index),
        vec![
            ("brown".to_string(), "a.txt".to_string(), 3, 1),
            ("fox".to_string(), "a.txt".to_string(), 3, 1),
            ("fox".to_string(), "b.txt".to_string(), 3, 1),
            ("quick".to_string(), "a.txt".to_string(), 3, 1),
            ("quick".to_string(), "b.txt".to_string(), 3, 2),
        ]
    );
}

#[test]
fn length_counts_tokens_not_windows() {
    let index = InvertedIndex::new(&vec![file("a", "one two three four")], &globals(3, &[]));
    assert_eq!(index.get(&term("one two three"), "a"), stats(4, 1));
    assert_eq!(index.get(&term("two three four"), "a"), stats(4, 1));
    assert_eq!(index.num_docs(), 1);
}

#[test]
fn length_leaves_stop_words_out() {
    let index = InvertedIndex::new(&vec![file("a", "the fox and the hound")], &globals(1, &["the", "and"]));
    assert_eq!(index.get(&term("fox"), "a"), stats(2, 1));
    assert_eq!(index.get(&term("hound"), "a"), stats(2, 1));
    assert_eq!(index.get(&term("the"), "a"), None);
}

#[test]
fn term_freq_counts_occurrences() {
    let index = InvertedIndex::new(&vec![file("a", "fox dog fox fox dog cat")], &globals(1, &[]));
    assert_eq!(index.get(&term("fox"), "a"), stats(6, 3));
    assert_eq!(index.get(&term("dog"), "a"), stats(6, 2));
    assert_eq!(index.get(&term("cat"), "a"), stats(6, 1));
}

#[test]
fn repeated_windows_are_counted() {
    let index = InvertedIndex::new(&vec![file("a", "a b a b a")], &globals(2, &[]));
    assert_eq!(index.get(&term("a b"), "a"), stats(5, 2));
    assert_eq!(index.get(&term("b a"), "a"), stats(5, 2));
}

#[test]
fn unreadable_file_is_skipped() {
    let files = vec![file("a.txt", "quick fox"), unreadable("b.bin"), file("c.txt", "fox")];
    let index = InvertedIndex::new(&files, &globals(1, &[]));
    assert_eq!(index.num_docs(), 2);
    assert_eq!(index.doc_freq(&term("fox")), 2);
    assert_eq!(
        records(&index),
        vec![
            ("fox".to_string(), "a.txt".to_string(), 2, 1),
            ("fox".to_string(), "c.txt".to_string(), 1, 1),
            ("quick".to_string(), "a.txt".to_string(), 2, 1),
        ]
    );
}

#[test]
fn file_without_terms_is_no_document() {
    let files = vec![file("empty.txt", ""), file("short.txt", "fox"), file("a.txt", "quick fox")];
    let index = InvertedIndex::new(&files, &globals(2, &[]));
    assert_eq!(index.num_docs(), 1);
    assert_eq!(records(&index), vec![("quick fox".to_string(), "a.txt".to_string(), 2, 1)]);
}

#[test]
fn build_does_not_depend_on_the_order_of_the_files() {
    let config = globals(1, &["the"]);
    let files = vec![
        file("a.txt", "the quick brown fox"),
        file("b.txt", "quick quick fox"),
        unreadable("c.bin"),
        file("d.txt", "lazy dogs and quick foxes"),
    ];
    let expected = records(&InvertedIndex::new(&files, &config));
    let orders: [[usize; 4]; 5] =
        [[3, 2, 1, 0], [1, 0, 3, 2], [2, 0, 1, 3], [0, 3, 2, 1], [1, 3, 0, 2]];
    for order in orders {
        let shuffled: Vec<SourceFile> = order
            .iter()
            .map(|&i| SourceFile {
                path: files[i].path.clone(),
                content: files[i].content.clone(),
            })
            .collect();
        assert_eq!(records(&InvertedIndex::new(&shuffled, &config)), expected);
    }
}

#[test]
fn later_file_at_the_same_path_counts() {
    let files = vec![file("a.txt", "quick fox"), file("a.txt", "lazy dog")];
    let index = InvertedIndex::new(&files, &globals(1, &[]));
    assert_eq!(
        records(&index),
        vec![
            ("dog".to_string(), "a.txt".to_string(), 2, 1),
            ("lazi".to_string(), "a.txt".to_string(), 2, 1),
        ]
    );
}

#[test]
fn empty_index_has_nothing() {
    let index = InvertedIndex::empty();
    assert_eq!(index.num_docs(), 0);
    assert_eq!(index.avg_doc_length(), None);
    assert_eq!(index.doc_freq(&term("fox")), 0);
    assert_eq!(index.get(&term("fox"), "a.txt"), None);
    assert!(index.postings(&term("fox")).is_none());
    assert!(index.entries().is_empty());
    assert!(index.document_table().is_empty());
}

#[test]
fn index_of_no_files_is_empty() {
    let index = InvertedIndex::new(&Vec::new(), &globals(1, &[]));
    assert_eq!(index.num_docs(), 0);
    assert_eq!(index.avg_doc_length(), None);
}

#[test]
fn num_docs_counts_documents_not_terms() {
    let index = InvertedIndex::new(&two_files(), &globals(1, &["the"]));
    assert_eq!(index.entries().len(), 3);
    assert_eq!(index.num_docs(), 2);
}

#[test]
fn doc_freq_counts_the_documents_of_a_term() {
    let index = InvertedIndex::new(&two_files(), &globals(1, &["the"]));
    assert_eq!(index.doc_freq(&term("quick")), 2);
    assert_eq!(index.doc_freq(&term("fox")), 2);
    assert_eq!(index.doc_freq(&term("brown")), 1);
    assert_eq!(index.doc_freq(&term("the")), 0);
    assert_eq!(index.doc_freq(&term("unseen")), 0);
}

#[test]
fn doc_freq_never_exceeds_num_docs() {
    let files = vec![
        file("a", "x y z"),
        file("b", "x y"),
        file("c", "x"),
        file("d", "w w w w"),
    ];
    let index = InvertedIndex::new(&files, &globals(1, &[]));
    let n = index.num_docs();
    assert_eq!(n, 4);
    for entry in index.entries() {
        assert!(index.doc_freq(&entry.term) <= n);
        assert!(index.doc_freq(&entry.term) >= 1);
    }
    assert_eq!(index.doc_freq(&term("x")), 3);
}

#[test]
fn average_length_counts_each_document_once() {
    let files = vec![file("a", "x y z"), file("b", "x y x y x"), file("c", "x")];
    let index = InvertedIndex::new(&files, &globals(1, &[]));
    assert_eq!(index.avg_doc_length(), Some(MeanLength { total: 9, count: 3 }));
}

#[test]
fn average_length_of_the_two_files() {
    let index = InvertedIndex::new(&two_files(), &globals(1, &["the"]));
    assert_eq!(index.avg_doc_length(), Some(MeanLength { total: 6, count: 2 }));
}

#[test]
fn document_table_lists_each_document_once() {
    let index = InvertedIndex::new(&two_files(), &globals(1, &["the"]));
    let mut table: Vec<(String, usize)> = index
        .document_table()
        .into_iter()
        .map(|DocumentLength { doc_path, length }| (doc_path, length))
        .collect();
    table.sort();
    assert_eq!(table, vec![("a.txt".to_string(), 3), ("b.txt".to_string(), 3)]);
}

#[test]
fn update_adds_a_new_document() {
    let config = globals(1, &["the"]);
    let mut index = InvertedIndex::new(&two_files(), &config);
    index.update("c.txt", Some("brown bears"), &config);
    assert_eq!(index.num_docs(), 3);
    assert_eq!(index.doc_freq(&term("brown")), 2);
    assert_eq!(index.get(&term("bear"), "c.txt"), stats(2, 1));
    assert_eq!(index.get(&term("brown"), "a.txt"), stats(3, 1));
}

#[test]
fn update_replaces_what_the_document_had() {
    let config = globals(1, &["the"]);
    let mut index = InvertedIndex::new(&two_files(), &config);
    index.update("b.txt", Some("fox fox fox hound"), &config);
    assert_eq!(
        records(&index),
        vec![
            ("brown".to_string(), "a.txt".to_string(), 3, 1),
            ("fox".to_string(), "a.txt".to_string(), 3, 1),
            ("fox".to_string(), "b.txt".to_string(), 4, 3),
            ("hound".to_string(), "b.txt".to_string(), 4, 1),
            ("quick".to_string(), "a.txt".to_string(), 3, 1),
        ]
    );
}

#[test]
fn update_twice_does_not_count_twice() {
    let config = globals(1, &["the"]);
    let mut index = InvertedIndex::new(&two_files(), &config);
    let before = records(&index);
    index.update("b.txt", Some("quick quick fox"), &config);
    assert_eq!(records(&index), before);
    index.update("b.txt", Some("quick quick fox"), &config);
    assert_eq!(records(&index), before);
}

#[test]
fn update_without_content_leaves_the_index_alone() {
    let config = globals(1, &["the"]);
    let mut index = InvertedIndex::new(&two_files(), &config);
    let before = records(&index);
    index.update("b.txt", None, &config);
    assert_eq!(records(&index), before);
    index.update("missing.txt", None, &config);
    assert_eq!(records(&index), before);
}

#[test]
fn update_to_empty_content_removes_the_document() {
    let config = globals(1, &["the"]);
    let mut index = InvertedIndex::new(&two_files(), &config);
    index.update("a.txt", Some(""), &config);
    assert_eq!(index.get(&term("quick"), "a.txt"), None);
    assert_eq!(index.get(&term("brown"), "a.txt"), None);
    assert_eq!(index.doc_freq(&term("brown")), 0);
    assert!(index.postings(&term("brown")).is_none());
    assert_eq!(index.doc_freq(&term("quick")), 1);
    assert_eq!(index.num_docs(), 1);
    assert_eq!(
        records(&index),
        vec![
            ("fox".to_string(), "b.txt".to_string(), 3, 1),
            ("quick".to_string(), "b.txt".to_string(), 3, 2),
        ]
    );
}

#[test]
fn update_equals_building_from_the_changed_files() {
    let config = globals(2, &["the"]);
    let mut index = InvertedIndex::new(&two_files(), &config);
    index.update("a.txt", Some("lazy dog jumps over"), &config);
    let rebuilt = InvertedIndex::new(
        &vec![file("b.txt", "quick quick fox"), file("a.txt", "lazy dog jumps over")],
        &config,
    );
    assert_eq!(records(&index), records(&rebuilt));
}

#[test]
fn remove_document_drops_its_records_and_lonely_terms() {
    let mut index = InvertedIndex::new(&two_files(), &globals(1, &["the"]));
    index.remove_document("a.txt");
    assert_eq!(
        records(&index),
        vec![
            ("fox".to_string(), "b.txt".to_string(), 3, 1),
            ("quick".to_string(), "b.txt".to_string(), 3, 2),
        ]
    );
    index.remove_document("missing.txt");
    assert_eq!(index.num_docs(), 1);
    index.remove_document("b.txt");
    assert_eq!(index.num_docs(), 0);
    assert!(index.entries().is_empty());
}

#[test]
fn process_document_indexes_one_document() {
    let index = InvertedIndex::process_document("a.txt", "quick quick fox", &globals(1, &[]));
    assert_eq!(
        records(&index),
        vec![
            ("fox".to_string(), "a.txt".to_string(), 3, 1),
            ("quick".to_string(), "a.txt".to_string(), 3, 2),
        ]
    );
}

#[test]
fn two_paths_are_two_documents() {
    let files = vec![file("a.txt", "same words"), file("b.txt", "same words")];
    let index = InvertedIndex::new(&files, &globals(1, &[]));
    assert_eq!(index.num_docs(), 2);
    assert_eq!(index.doc_freq(&term("same")), 2);
}

#[test]
fn postings_list_the_documents_of_a_term() {
    let index = InvertedIndex::new(&two_files(), &globals(1, &["the"]));
    let postings = index.postings(&term("quick")).unwrap();
    let docs: Vec<&str> = postings.iter().map(|p| p.doc_path.as_str()).collect();
    assert_eq!(docs, vec!["a.txt", "b.txt"]);
}

#[test]
fn merge_of_two_halves_is_the_index_of_all_files() {
    let config = globals(1, &["the"]);
    let files = vec![
        file("a.txt", "the quick brown fox"),
        file("b.txt", "quick quick fox"),
        file("c.txt", "lazy dogs"),
        file("d.txt", "brown dogs and foxes"),
    ];
    let whole = InvertedIndex::new(&files, &config);
    let mut left = InvertedIndex::new(&vec![file("a.txt", "the quick brown fox"), file("c.txt", "lazy dogs")], &config);
    let right = InvertedIndex::new(&vec![file("b.txt", "quick quick fox"), file("d.txt", "brown dogs and foxes")], &config);
    left.merge(&right);
    assert_eq!(records(&left), records(&whole));
    assert_eq!(left.num_docs(), 4);
}

#[test]
fn merge_in_either_order_gives_the_same_records() {
    let config = globals(1, &[]);
    let a = vec![file("a.txt", "quick brown fox"), file("b.txt", "fox")];
    let b = vec![file("c.txt", "brown bear"), file("d.txt", "quick quick")];
    let mut ab = InvertedIndex::new(&a, &config);
    ab.merge(&InvertedIndex::new(&b, &config));
    let mut ba = InvertedIndex::new(&b, &config);
    ba.merge(&InvertedIndex::new(&a, &config));
    assert_eq!(records(&ab), records(&ba));
}

#[test]
fn merge_can_be_grouped_either_way() {
    let config = globals(1, &[]);
    let a = vec![file("a.txt", "quick brown fox"), file("x.txt", "one")];
    let b = vec![file("b.txt", "brown bear"), file("x.txt", "two two")];
    let c = vec![file("c.txt", "quick bear"), file("x.txt", "three"), file("a.txt", "slow")];
    let mut left = InvertedIndex::new(&a, &config);
    left.merge(&InvertedIndex::new(&b, &config));
    left.merge(&InvertedIndex::new(&c, &config));
    let mut bc = InvertedIndex::new(&b, &config);
    bc.merge(&InvertedIndex::new(&c, &config));
    let mut right = InvertedIndex::new(&a, &config);
    right.merge(&bc);
    assert_eq!(records(&left), records(&right));
    assert_eq!(left.get(&term("three"), "x.txt"), stats(1, 1));
    assert_eq!(left.get(&term("one"), "x.txt"), None);
    assert_eq!(left.get(&term("two"), "x.txt"), None);
    assert_eq!(left.get(&term("slow"), "a.txt"), stats(1, 1));
    assert_eq!(left.get(&term("quick"), "a.txt"), None);
}

#[test]
fn merge_replaces_a_document_that_both_hold() {
    let config = globals(1, &[]);
    let mut index = InvertedIndex::new(&vec![file("a.txt", "quick brown fox"), file("b.txt", "fox")], &config);
    index.merge(&InvertedIndex::new(&vec![file("a.txt", "lazy dog dog")], &config));
    assert_eq!(
        records(&index),
        vec![
            ("dog".to_string(), "a.txt".to_string(), 3, 2),
            ("fox".to_string(), "b.txt".to_string(), 1, 1),
            ("lazi".to_string(), "a.txt".to_string(), 3, 1),
        ]
    );
}

#[test]
fn merge_with_an_empty_index_changes_nothing() {
    let config = globals(1, &["the"]);
    let mut index = InvertedIndex::new(&two_files(), &config);
    let before = records(&index);
    index.merge(&InvertedIndex::empty());
    assert_eq!(records(&index), before);
    let mut empty = InvertedIndex::empty();
    empty.merge(&index);
    assert_eq!(records(&empty), before);
}

#[test]
fn merge_of_single_documents_builds_the_index() {
    let config = globals(2, &["the"]);
    let files = two_files();
    let mut index = InvertedIndex::empty();
    for source in files.iter().rev() {
        let text = source.content.as_ref().unwrap();
        index.merge(&InvertedIndex::process_document(&source.path, text, &config));
    }
    assert_eq!(records(&index), records(&InvertedIndex::new(&files, &config)));
}

#[test]
fn document_records_list_the_terms_of_a_document() {
    let index = InvertedIndex::new(&two_files(), &globals(1, &["the"]));
    let listed: Vec<(String, usize, usize)> = index
        .document_records("b.txt")
        .into_iter()
        .map(|record| (record.term.0, record.stats.length, record.stats.term_freq))
        .collect();
    assert_eq!(
        listed,
        vec![("quick".to_string(), 3, 2), ("fox".to_string(), 3, 1)]
    );
    assert!(index.document_records("missing.txt").is_empty());
}
