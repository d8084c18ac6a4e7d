use repo_reaper::inverted_index::{InvertedIndex, SourceFile, Term, TermDocument};
use repo_reaper::session::{on_change, on_input, ChangeKind, Command};
use repo_reaper::text_transform::Globals;

fn globals() -> Globals {
    Globals {
        n_grams: 1,
        stop_words: vec!["the".to_string()],
    }
}

fn index() -> InvertedIndex {
    InvertedIndex::new(
        &vec![
            SourceFile {
                path: "a.txt".to_string(),
                content: Some("the quick brown fox".to_string()),
            },
            SourceFile {
                path: "b.txt".to_string(),
                content: Some("quick quick fox".to_string()),
            },
        ],
        &globals(),
    )
}

fn records(index: &InvertedIndex) -> Vec<(String, String, usize, usize)> {
    let mut all = Vec::new();
    for entry in index.entries() {
        for posting in &entry.postings {
            all.push((
                entry.term.0.clone(),
                posting.doc_path.clone(),
                posting.stats.length,
                posting.stats.term_freq,
            ));
        }
    }
    all.sort();
    all
}

fn is_exit(line: &str) -> bool {
    matches!(on_input(line, &globals()), Command::Exit)
}

#[test]
fn exit_ends_the_session() {
    assert!(is_exit("exit"));
    assert!(is_exit("exit\n"));
    assert!(is_exit("  exit \r\n"));
    assert!(is_exit("\texit"));
}

#[test]
fn other_lines_are_queries() {
    assert!(!is_exit(""));
    assert!(!is_exit("\n"));
    assert!(!is_exit("Exit"));
    assert!(!is_exit("exit now"));
    assert!(!is_exit("e x i t"));
    assert!(!is_exit("exi"));
    match on_input("The quick foxes\n", &globals()) {
        Command::Search(query) => {
            let terms: Vec<&str> = query.terms().iter().map(|t| t.0.as_str()).collect();
            assert_eq!(terms, vec!["quick", "fox"]);
        }
        Command::Exit => panic!("a query was taken for the end of the session"),
    }
}

#[test]
fn empty_line_is_an_empty_query() {
    match on_input("\n", &globals()) {
        Command::Search(query) => assert!(query.is_empty()),
        Command::Exit => panic!("an empty line was taken for the end of the session"),
    }
}

#[test]
fn metadata_change_does_not_reach_the_index() {
    let mut watched = index();
    let before = records(&watched);
    on_change(&mut watched, ChangeKind::Metadata, "a.txt", Some("other words"), &globals());
    assert_eq!(records(&watched), before);
    on_change(&mut watched, ChangeKind::Metadata, "new.txt", Some("other words"), &globals());
    assert_eq!(records(&watched), before);
}

#[test]
fn content_change_records_the_document_anew() {
    let mut watched = index();
    on_change(&mut watched, ChangeKind::Content, "a.txt", Some("lazy dog"), &globals());
    assert_eq!(
        watched.get(&Term("dog".to_string()), "a.txt"),
        Some(TermDocument { length: 2, term_freq: 1 })
    );
    assert_eq!(watched.get(&Term("brown".to_string()), "a.txt"), None);
    assert_eq!(watched.num_docs(), 2);
}

#[test]
fn change_of_an_unreadable_path_leaves_the_index_stale() {
    let mut watched = index();
    let before = records(&watched);
    on_change(&mut watched, ChangeKind::Content, "a.txt", None, &globals());
    assert_eq!(records(&watched), before);
}

#[test]
fn the_same_change_twice_counts_once() {
    let mut watched = index();
    on_change(&mut watched, ChangeKind::Content, "c.txt", Some("fox fox"), &globals());
    let once = records(&watched);
    on_change(&mut watched, ChangeKind::Content, "c.txt", Some("fox fox"), &globals());
    assert_eq!(records(&watched), once);
    assert_eq!(
        watched.get(&Term("fox".to_string()), "c.txt"),
        Some(TermDocument { length: 2, term_freq: 2 })
    );
}
