//! The ranking strategies, and the ranked list of scored documents.

use crate::inverted_index::index::{
    hits, lemma_hits_match, matching_documents, table_docs, InvertedIndex,
};
use crate::inverted_index::stats::document_length;
use crate::ranking::candidates::{
    candidate_docs, frequencies_of, lemma_matches_nonempty, matches_of, matching_docs,
    term_frequencies, term_matches, Candidate,
};
use crate::ranking::order::{is_ranking, rank_order, ranking_len, ranking_of};
use crate::text_transform::query::{distinct, lemma_distinct, Query};
use vstd::prelude::*;

verus! {

/// The scoring strategies.
#[derive(Debug, Clone, Copy, PartialEq, Eq)]
pub enum RankingAlgo {
    CosineSimilarity,
    BM25,
    TFIDF,
}

/// A document with its score. The score is held as an integer that orders
/// as the score does: a higher score is a higher integer.
#[derive(Debug, Clone, PartialEq, Eq)]
pub struct Score {
    pub doc_path: String,
    pub score: u64,
}

impl View for Score {
    type V = (Seq<char>, u64);

    open spec fn view(&self) -> (Seq<char>, u64) {
        (self.doc_path@, self.score)
    }
}

/// A list of scored documents.
#[derive(Debug, Clone, PartialEq, Eq)]
pub struct Scored(pub Vec<Score>);

impl View for Scored {
    type V = Seq<(Seq<char>, u64)>;

    open spec fn view(&self) -> Seq<(Seq<char>, u64)> {
        Seq::new(self.0@.len(), |i: int| self.0@[i]@)
    }
}

/// The scores of a list, in its order.
pub open spec fn scores_of(scored: Seq<(Seq<char>, u64)>) -> Seq<u64> {
    Seq::new(scored.len(), |i: int| scored[i].1)
}

/// The entries of `scored` at the places that `order` names, in its order.
pub open spec fn picked(scored: Seq<(Seq<char>, u64)>, order: Seq<usize>) -> Seq<(Seq<char>, u64)> {
    Seq::new(order.len(), |k: int| scored[order[k] as int])
}

/// The `top_n` best of a list of scored documents, best first; of two
/// documents with the same score the one that stands earlier in the list
/// comes first.
pub open spec fn top_ranked(scored: Seq<(Seq<char>, u64)>, top_n: nat) -> Seq<(Seq<char>, u64)> {
    picked(scored, ranking_of(scores_of(scored), top_n))
}

impl RankingAlgo {
    /// The strategy that a name selects: `cosim`, `bm25` or `tfidf`. Any
    /// other name is an error, whose message names it.
    pub fn from_str(s: &str) -> (parsed: Result<RankingAlgo, String>)
        ensures
            s@ == "cosim"@ ==> parsed == Ok::<RankingAlgo, String>(RankingAlgo::CosineSimilarity),
            s@ == "bm25"@ ==> parsed == Ok::<RankingAlgo, String>(RankingAlgo::BM25),
            s@ == "tfidf"@ ==> parsed == Ok::<RankingAlgo, String>(RankingAlgo::TFIDF),
            s@ != "cosim"@ && s@ != "bm25"@ && s@ != "tfidf"@ ==> parsed is Err
                && parsed->Err_0@ == s@ + " is not a valid ranking algorithm"@,
    {
        proof {
            reveal_strlit("cosim");
            reveal_strlit("bm25");
            reveal_strlit("tfidf");
            assert("cosim"@.len() == 5 && "bm25"@.len() == 4 && "tfidf"@.len() == 5);
            assert("cosim"@[0] == 'c' && "tfidf"@[0] == 't');
        }
        let name = String::from_str(s);
        if name == String::from_str("cosim") {
            Ok(RankingAlgo::CosineSimilarity)
        } else if name == String::from_str("bm25") {
            Ok(RankingAlgo::BM25)
        } else if name == String::from_str("tfidf") {
            Ok(RankingAlgo::TFIDF)
        } else {
            Err(name.concat(" is not a valid ranking algorithm"))
        }
    }

    /// Whether the strategy reads the frequencies of all terms of a
    /// document, and not only those of the query terms.
    pub open spec fn reads_all_terms(&self) -> bool {
        *self == RankingAlgo::CosineSimilarity
    }

    /// The documents to score for a query: those that contain at least one
    /// of its terms, each once, with what the strategy reads of them. A
    /// document that contains no query term is no candidate, and a query
    /// without terms has none.
    pub fn candidates(&self, index: &InvertedIndex, query: &Query) -> (out: Vec<Candidate>)
        requires
            index.wf(),
        ensures
            candidate_docs(out@) == distinct(hits(*index, query.term_seq())),
            candidate_docs(out@).no_duplicates(),
            candidate_docs(out@).to_set() == matching_documents(index@, query@),
            forall|k: int|
                0 <= k < out.len() ==> {
                    &&& (#[trigger] out[k]).length == document_length(index@, out[k].doc_path@)
                    &&& out[k].matches@.len() > 0
                    &&& out[k].matches@ == matches_of(index@, query.term_seq(), out[k].doc_path@)
                    &&& out[k].term_freqs@ == if self.reads_all_terms() {
                        frequencies_of(index@, index.term_order(), out[k].doc_path@)
                    } else {
                        Seq::empty()
                    }
                },
    {
        let docs = matching_docs(index, query);
        let mut out: Vec<Candidate> = Vec::new();
        let mut k: usize = 0;
        while k < docs.len()
            invariant
                0 <= k <= docs.len(),
                index.wf(),
                out.len() == k,
                table_docs(docs@) == distinct(hits(*index, query.term_seq())),
                forall|a: int|
                    0 <= a < docs.len() ==> (#[trigger] docs[a]).length == document_length(
                        index@,
                        docs[a].doc_path@,
                    ),
                forall|a: int|
                    0 <= a < k ==> {
                        &&& (#[trigger] out[a]).doc_path@ == docs[a].doc_path@
                        &&& out[a].length == document_length(index@, out[a].doc_path@)
                        &&& out[a].matches@ == matches_of(
                            index@,
                            query.term_seq(),
                            out[a].doc_path@,
                        )
                        &&& out[a].term_freqs@ == if self.reads_all_terms() {
                            frequencies_of(index@, index.term_order(), out[a].doc_path@)
                        } else {
                            Seq::empty()
                        }
                    },
            decreases docs.len() - k,
        {
            let path = docs[k].doc_path.clone();
            let matches = term_matches(index, query, path.as_str());
            let term_freqs = match self {
                RankingAlgo::CosineSimilarity => term_frequencies(index, path.as_str()),
                _ => Vec::new(),
            };
            out.push(Candidate { doc_path: path, length: docs[k].length, matches, term_freqs });
            k = k + 1;
        }
        assert(candidate_docs(out@) =~= table_docs(docs@));
        proof {
            let found = hits(*index, query.term_seq());
            lemma_distinct(found);
            lemma_hits_match(*index, query.term_seq());
            query.lemma_view();
            assert forall|k: int| 0 <= k < out.len() implies (#[trigger] out[k]).matches@.len()
                > 0 by {
                let d = out[k].doc_path@;
                assert(candidate_docs(out@)[k] == d);
                assert(candidate_docs(out@).to_set().contains(d));
                lemma_matches_nonempty(index@, query.term_seq(), d);
            }
        }
        out
    }

    /// Ranks scored documents: the `top_n` best, best first. There is no
    /// ranking where there is nothing to rank; a ranking cut off at nothing
    /// is an empty one.
    pub fn rank(scored: Scored, top_n: usize) -> (ranking: Option<Scored>)
        ensures
            ranking is None <==> scored@.len() == 0,
            ranking matches Some(list) ==> list@ == top_ranked(scored@, top_n as nat),
            ranking matches Some(list) ==> list@.len() == ranking_len(scored@.len(), top_n as nat),
    {
        if scored.0.len() == 0 {
            return None;
        }
        let mut scores: Vec<u64> = Vec::new();
        let mut i: usize = 0;
        while i < scored.0.len()
            invariant
                0 <= i <= scored.0.len(),
                scores.len() == i,
                forall|a: int| 0 <= a < i ==> scores[a] == scored.0[a].score,
            decreases scored.0.len() - i,
        {
            scores.push(scored.0[i].score);
            i = i + 1;
        }
        assert(scores@ =~= scores_of(scored@));
        let order = rank_order(&scores, top_n);
        let mut list: Vec<Score> = Vec::new();
        let mut k: usize = 0;
        while k < order.len()
            invariant
                0 <= k <= order.len(),
                list.len() == k,
                is_ranking(scores@, top_n as nat, order@),
                scores@.len() == scored.0@.len(),
                forall|a: int| 0 <= a < k ==> (#[trigger] list[a])@ == scored.0[order[a] as int]@,
            decreases order.len() - k,
        {
            let at = order[k];
            list.push(Score { doc_path: scored.0[at].doc_path.clone(), score: scored.0[at].score });
            k = k + 1;
        }
        let ranked = Scored(list);
        assert(ranked@ =~= top_ranked(scored@, top_n as nat));
        Some(ranked)
    }
}

} // verus!
