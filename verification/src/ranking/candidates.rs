//! The documents that answer a query, each with the statistics from which
//! its score is computed.

use crate::inverted_index::index::{
    find_doc, hits, matching_documents, table_contains, table_docs, DocumentLength, InvertedIndex,
};
use crate::inverted_index::model::{
    consistent, entries_map, entries_wf, entry_terms, lemma_entry_at, lemma_posting_at,
    posting_docs, postings_map, recorded_under, term_texts, TermDocument,
};
use crate::inverted_index::stats::{doc_freq_of, document_length, lemma_document_length};
use crate::text_transform::query::{distinct, Query};
use vstd::prelude::*;

verus! {

/// One query term in one document: how often it occurs there, and in how
/// many documents it occurs at all.
#[derive(Debug, Clone, Copy, PartialEq, Eq)]
pub struct TermMatch {
    pub term_freq: usize,
    pub doc_freq: usize,
}

/// A document that contains at least one term of the query.
pub struct Candidate {
    pub doc_path: String,
    /// Number of tokens of the document.
    pub length: usize,
    /// One entry for each query term that the document contains, in the
    /// order of the query.
    pub matches: Vec<TermMatch>,
    /// The frequencies of all terms of the document, in the order of the
    /// index; filled only where the strategy reads them.
    pub term_freqs: Vec<usize>,
}

/// The documents of a list of candidates, in its order.
pub open spec fn candidate_docs(candidates: Seq<Candidate>) -> Seq<Seq<char>> {
    Seq::new(candidates.len(), |i: int| candidates[i].doc_path@)
}

/// What document `d` has of each of the terms that it contains, in their
/// order.
pub open spec fn matches_of(
    m: Map<Seq<char>, Map<Seq<char>, TermDocument>>,
    terms: Seq<Seq<char>>,
    d: Seq<char>,
) -> Seq<TermMatch>
    decreases terms.len(),
{
    if terms.len() == 0 {
        Seq::empty()
    } else {
        let before = matches_of(m, terms.drop_last(), d);
        let t = terms.last();
        if recorded_under(m, t).contains_key(d) {
            before.push(
                TermMatch { term_freq: m[t][d].term_freq, doc_freq: doc_freq_of(m, t) as usize },
            )
        } else {
            before
        }
    }
}

/// The frequencies in document `d` of those of the terms that it contains,
/// in their order.
pub open spec fn frequencies_of(
    m: Map<Seq<char>, Map<Seq<char>, TermDocument>>,
    terms: Seq<Seq<char>>,
    d: Seq<char>,
) -> Seq<usize>
    decreases terms.len(),
{
    if terms.len() == 0 {
        Seq::empty()
    } else {
        let before = frequencies_of(m, terms.drop_last(), d);
        let t = terms.last();
        if recorded_under(m, t).contains_key(d) {
            before.push(m[t][d].term_freq)
        } else {
            before
        }
    }
}

/// A document that contains one of the terms has a match for it.
pub proof fn lemma_matches_nonempty(
    m: Map<Seq<char>, Map<Seq<char>, TermDocument>>,
    terms: Seq<Seq<char>>,
    d: Seq<char>,
)
    ensures
        matches_of(m, terms, d).len() > 0 <==> matching_documents(m, terms.to_set()).contains(d),
    decreases terms.len(),
{
    if terms.len() > 0 {
        let init = terms.drop_last();
        let t = terms.last();
        lemma_matches_nonempty(m, init, d);
        if matching_documents(m, terms.to_set()).contains(d) {
            let x = choose|x: Seq<char>|
                terms.to_set().contains(x) && m.contains_key(x) && #[trigger] m[x].contains_key(d);
            let at = terms.index_of(x);
            assert(terms[at] == x);
            if at < init.len() {
                assert(init[at] == x);
                assert(init.to_set().contains(x));
                assert(matching_documents(m, init.to_set()).contains(d));
            }
        }
        if matches_of(m, terms, d).len() > 0 {
            if recorded_under(m, t).contains_key(d) {
                assert(terms[terms.len() - 1] == t);
                assert(terms.to_set().contains(t));
                assert(m.contains_key(t) && m[t].contains_key(d));
            } else {
                let x = choose|x: Seq<char>|
                    init.to_set().contains(x) && m.contains_key(x) && #[trigger] m[x].contains_key(
                        d,
                    );
                let at = init.index_of(x);
                assert(terms[at] == x);
                assert(terms.to_set().contains(x));
            }
        }
    } else {
        if matching_documents(m, terms.to_set()).contains(d) {
            let x = choose|x: Seq<char>|
                terms.to_set().contains(x) && m.contains_key(x) && #[trigger] m[x].contains_key(d);
            let at = terms.index_of(x);
        }
    }
}

/// The documents that contain a term of the query, each once, in the order
/// in which the query terms and the index name them, with their lengths.
pub fn matching_docs(index: &InvertedIndex, query: &Query) -> (docs: Vec<DocumentLength>)
    requires
        index.wf(),
    ensures
        table_docs(docs@) == distinct(hits(*index, query.term_seq())),
        forall|k: int|
            0 <= k < docs.len() ==> (#[trigger] docs[k]).length == document_length(
                index@,
                docs[k].doc_path@,
            ),
{
    let terms = query.terms();
    let ghost qs = query.term_seq();
    let ghost m = index@;
    let mut docs: Vec<DocumentLength> = Vec::new();
    let mut i: usize = 0;
    proof {
        index.lemma_consistent();
        assert(qs.take(0) =~= Seq::<Seq<char>>::empty());
        assert(table_docs(docs@) =~= Seq::<Seq<char>>::empty());
    }
    while i < terms.len()
        invariant
            0 <= i <= terms.len(),
            index.wf(),
            consistent(m),
            m == index@,
            qs == term_texts(terms@),
            table_docs(docs@) == distinct(hits(*index, qs.take(i as int))),
            forall|k: int|
                0 <= k < docs.len() ==> (#[trigger] docs[k]).length == document_length(
                    m,
                    docs[k].doc_path@,
                ),
        decreases terms.len() - i,
    {
        let ghost walked = hits(*index, qs.take(i as int));
        let ghost t = terms[i as int]@;
        proof {
            assert(qs.take(i + 1).drop_last() =~= qs.take(i as int));
            assert(qs.take(i + 1).last() == t);
        }
        match index.postings(&terms[i]) {
            Some(postings) => {
                let ghost ps = postings@;
                let mut j: usize = 0;
                proof {
                    assert(walked + posting_docs(ps).take(0) =~= walked);
                }
                while j < postings.len()
                    invariant
                        0 <= j <= postings.len(),
                        ps == postings@,
                        consistent(m),
                        m.contains_key(t),
                        m[t] == postings_map(ps),
                        posting_docs(ps).no_duplicates(),
                        table_docs(docs@) == distinct(walked + posting_docs(ps).take(j as int)),
                        forall|k: int|
                            0 <= k < docs.len() ==> (#[trigger] docs[k]).length
                                == document_length(m, docs[k].doc_path@),
                    decreases postings.len() - j,
                {
                    let ghost seen = walked + posting_docs(ps).take(j as int);
                    let ghost d = ps[j as int].doc_path@;
                    let ghost before = table_docs(docs@);
                    proof {
                        let next = walked + posting_docs(ps).take(j + 1);
                        assert(next.drop_last() =~= seen);
                        assert(next.last() == d);
                        lemma_posting_at(ps, j as int);
                        lemma_document_length(m, t, d);
                    }
                    if !table_contains(&docs, &postings[j].doc_path) {
                        docs.push(
                            DocumentLength {
                                doc_path: postings[j].doc_path.clone(),
                                length: postings[j].stats.length,
                            },
                        );
                        assert(table_docs(docs@) =~= before.push(d));
                    }
                    j = j + 1;
                }
                proof {
                    assert(posting_docs(ps).take(j as int) =~= posting_docs(ps));
                }
            },
            None => {
                proof {
                    assert(walked + Seq::<Seq<char>>::empty() =~= walked);
                }
            },
        }
        i = i + 1;
    }
    proof {
        assert(qs.take(i as int) =~= qs);
    }
    docs
}

/// What document `path` has of each query term that it contains.
pub fn term_matches(index: &InvertedIndex, query: &Query, path: &str) -> (out: Vec<TermMatch>)
    requires
        index.wf(),
    ensures
        out@ == matches_of(index@, query.term_seq(), path@),
{
    let terms = query.terms();
    let ghost qs = query.term_seq();
    let mut out: Vec<TermMatch> = Vec::new();
    let mut i: usize = 0;
    proof {
        assert(qs.take(0) =~= Seq::<Seq<char>>::empty());
    }
    while i < terms.len()
        invariant
            0 <= i <= terms.len(),
            index.wf(),
            qs == term_texts(terms@),
            out@ == matches_of(index@, qs.take(i as int), path@),
        decreases terms.len() - i,
    {
        proof {
            assert(qs.take(i + 1).drop_last() =~= qs.take(i as int));
            assert(qs.take(i + 1).last() == terms[i as int]@);
        }
        match index.get(&terms[i], path) {
            Some(stats) => {
                let doc_freq = index.doc_freq(&terms[i]);
                out.push(TermMatch { term_freq: stats.term_freq, doc_freq });
            },
            None => {},
        }
        i = i + 1;
    }
    proof {
        assert(qs.take(i as int) =~= qs);
    }
    out
}

/// The frequencies of all terms of document `path`, in the order of the
/// index.
pub fn term_frequencies(index: &InvertedIndex, path: &str) -> (out: Vec<usize>)
    requires
        index.wf(),
    ensures
        out@ == frequencies_of(index@, index.term_order(), path@),
{
    let owned = String::from_str(path);
    let entries = index.entries();
    let ghost order = index.term_order();
    let ghost m = index@;
    let mut out: Vec<usize> = Vec::new();
    let mut i: usize = 0;
    proof {
        assert(order.take(0) =~= Seq::<Seq<char>>::empty());
    }
    while i < entries.len()
        invariant
            0 <= i <= entries.len(),
            owned@ == path@,
            entries_wf(entries@),
            m == entries_map(entries@),
            order == entry_terms(entries@),
            out@ == frequencies_of(m, order.take(i as int), path@),
        decreases entries.len() - i,
    {
        proof {
            assert(order.take(i + 1).drop_last() =~= order.take(i as int));
            assert(order.take(i + 1).last() == entries[i as int].term@);
            lemma_entry_at(entries@, i as int);
        }
        match find_doc(&entries[i].postings, &owned) {
            Some(j) => {
                proof {
                    lemma_posting_at(entries[i as int].postings@, j as int);
                }
                out.push(entries[i].postings[j].stats.term_freq);
            },
            None => {},
        }
        i = i + 1;
    }
    proof {
        assert(order.take(i as int) =~= order);
    }
    out
}

} // verus!
