//! Judging a ranking against the documents that are known to answer the
//! query.

use crate::evaluation::evaluation_data::{relevant_docs, relevant_paths, Example};
use crate::ranking::rank::{RankingAlgo, Scored};
use crate::text_transform::query::Query;
use crate::text_transform::tokens::texts;
use vstd::prelude::*;

verus! {

/// A query with the documents that should be found for it.
pub struct TestQuery {
    pub query: Query,
    pub relevant_docs: Vec<String>,
}

/// The queries to judge a strategy by.
pub struct TestSet {
    pub ranking_algorithm: RankingAlgo,
    pub queries: Vec<TestQuery>,
}

/// The counts from which precision, recall and reciprocal rank of one
/// ranking are computed.
#[derive(Debug, Clone, Copy, PartialEq, Eq)]
pub struct Judgement {
    /// Number of ranked documents that are relevant.
    pub true_positives: usize,
    /// Number of ranked documents.
    pub retrieved: usize,
    /// Number of documents listed as relevant.
    pub relevant: usize,
    /// Place of the first relevant document in the ranking, from 0.
    pub first_relevant: Option<usize>,
}

/// Number of relevant documents among the first `n` of a ranking.
pub open spec fn relevant_among(
    ranking: Seq<(Seq<char>, u64)>,
    relevant: Seq<Seq<char>>,
    n: int,
) -> nat
    decreases n,
{
    if n <= 0 {
        0
    } else {
        relevant_among(ranking, relevant, n - 1) + if relevant.contains(ranking[n - 1].0) {
            1nat
        } else {
            0nat
        }
    }
}

/// Whether `path` is one of the listed paths.
pub fn contains_path(paths: &Vec<String>, path: &String) -> (found: bool)
    ensures
        found == texts(paths@).contains(path@),
{
    let mut i: usize = 0;
    while i < paths.len()
        invariant
            0 <= i <= paths.len(),
            forall|k: int| 0 <= k < i ==> texts(paths@)[k] != path@,
        decreases paths.len() - i,
    {
        if paths[i] == *path {
            assert(texts(paths@)[i as int] == path@);
            return true;
        }
        i = i + 1;
    }
    false
}

impl TestQuery {
    /// The test query of an example: its query, and the paths of the
    /// documents that are judged relevant.
    pub fn from_example(example: &Example) -> (test: Self)
        ensures
            test.query.term_seq() == example.query.term_seq(),
            test.query.wf() == example.query.wf(),
            texts(test.relevant_docs@) == relevant_paths(example.results@),
    {
        TestQuery { query: example.query.clone(), relevant_docs: relevant_docs(&example.results) }
    }

    /// Counts what a ranking found of the relevant documents.
    pub fn judge(&self, ranking: &Scored) -> (judgement: Judgement)
        ensures
            judgement.retrieved == ranking@.len(),
            judgement.relevant == self.relevant_docs@.len(),
            judgement.true_positives == relevant_among(
                ranking@,
                texts(self.relevant_docs@),
                ranking@.len() as int,
            ),
            judgement.true_positives <= judgement.retrieved,
            match judgement.first_relevant {
                Some(at) => at < ranking@.len() && texts(self.relevant_docs@).contains(
                    ranking@[at as int].0,
                ) && forall|k: int|
                    0 <= k < at ==> !texts(self.relevant_docs@).contains(#[trigger] ranking@[k].0),
                None => forall|k: int|
                    0 <= k < ranking@.len() ==> !texts(self.relevant_docs@).contains(
                        #[trigger] ranking@[k].0,
                    ),
            },
    {
        let ghost relevant = texts(self.relevant_docs@);
        let mut true_positives: usize = 0;
        let mut first_relevant: Option<usize> = None;
        let mut i: usize = 0;
        while i < ranking.0.len()
            invariant
                0 <= i <= ranking.0.len(),
                relevant == texts(self.relevant_docs@),
                true_positives == relevant_among(ranking@, relevant, i as int),
                true_positives <= i,
                match first_relevant {
                    Some(at) => at < i && relevant.contains(ranking@[at as int].0) && forall|k: int|
                        0 <= k < at ==> !relevant.contains(#[trigger] ranking@[k].0),
                    None => forall|k: int|
                        0 <= k < i ==> !relevant.contains(#[trigger] ranking@[k].0),
                },
            decreases ranking.0.len() - i,
        {
            assert(ranking@[i as int].0 == ranking.0[i as int].doc_path@);
            if contains_path(&self.relevant_docs, &ranking.0[i].doc_path) {
                true_positives = true_positives + 1;
                if first_relevant.is_none() {
                    first_relevant = Some(i);
                }
            }
            i = i + 1;
        }
        Judgement {
            true_positives,
            retrieved: ranking.0.len(),
            relevant: self.relevant_docs.len(),
            first_relevant,
        }
    }
}

/// The test queries of a list of examples, in its order.
pub fn test_queries(examples: &Vec<Example>) -> (queries: Vec<TestQuery>)
    ensures
        queries.len() == examples.len(),
        forall|i: int|
            0 <= i < queries.len() ==> {
                &&& (#[trigger] queries[i]).query.term_seq() == examples[i].query.term_seq()
                &&& texts(queries[i].relevant_docs@) == relevant_paths(examples[i].results@)
            },
{
    let mut queries: Vec<TestQuery> = Vec::new();
    let mut i: usize = 0;
    while i < examples.len()
        invariant
            0 <= i <= examples.len(),
            queries.len() == i,
            forall|k: int|
                0 <= k < i ==> {
                    &&& (#[trigger] queries[k]).query.term_seq() == examples[k].query.term_seq()
                    &&& texts(queries[k].relevant_docs@) == relevant_paths(examples[k].results@)
                },
        decreases examples.len() - i,
    {
        queries.push(TestQuery::from_example(&examples[i]));
        i = i + 1;
    }
    queries
}

} // verus!
