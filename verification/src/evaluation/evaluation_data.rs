//! Labelled examples: a query with the documents that answer it.

use crate::text_transform::query::{distinct, Query};
use crate::text_transform::tokens::texts;
use crate::text_transform::transform::{terms_of, Globals};
use url::{ParseError, Url};
use vstd::prelude::*;

verus! {

/// A parsed URL, as the `url` crate holds it.
#[verifier::external_type_specification]
#[verifier::external_body]
pub struct ExUrl(Url);

/// Why the `url` crate refused a text.
#[verifier::external_type_specification]
#[verifier::external_body]
pub struct ExParseError(ParseError);

/// Whether a text is an absolute URL that the `url` crate accepts.
pub uninterp spec fn valid_url(text: Seq<char>) -> bool;

/// `Url::parse` of the `url` crate: whether it accepts a text depends on
/// the text alone; [`valid_url`] names the answer.
#[verifier::external_body]
fn parse_url(text: &str) -> (parsed: Result<Url, ParseError>)
    ensures
        parsed is Ok <==> valid_url(text@),
{
    Url::parse(text)
}

/// Whether a document answers the query of its example, and if it does,
/// with which grade.
#[derive(Debug, Clone, Copy, PartialEq, Eq)]
pub enum Relevance {
    Relevant(usize),
    NonRelevant,
}

/// One judged document of an example.
pub struct ResultData {
    pub path: String,
    pub content: String,
    pub relevance: Relevance,
}

/// A query with its judged documents.
pub struct Example {
    pub query: Query,
    pub narrative: String,
    pub results: Vec<ResultData>,
}

/// A set of examples over the files of one repository.
pub struct EvaluationData {
    pub repo: Url,
    pub examples: Vec<Example>,
}

/// Why evaluation data was refused.
pub enum EvaluationError {
    /// The repository is not given by a valid URL.
    InvalidRepository(ParseError),
}

/// The paths of the documents that are judged relevant, in their order.
pub open spec fn relevant_paths(results: Seq<ResultData>) -> Seq<Seq<char>>
    decreases results.len(),
{
    if results.len() == 0 {
        Seq::empty()
    } else {
        let before = relevant_paths(results.drop_last());
        match results.last().relevance {
            Relevance::Relevant(_) => before.push(results.last().path@),
            Relevance::NonRelevant => before,
        }
    }
}

/// The paths of the documents that are judged relevant.
pub fn relevant_docs(results: &Vec<ResultData>) -> (docs: Vec<String>)
    ensures
        texts(docs@) == relevant_paths(results@),
{
    let mut docs: Vec<String> = Vec::new();
    let mut i: usize = 0;
    assert(results@.take(0) =~= Seq::<ResultData>::empty());
    assert(texts(docs@) =~= Seq::<Seq<char>>::empty());
    while i < results.len()
        invariant
            0 <= i <= results.len(),
            texts(docs@) == relevant_paths(results@.take(i as int)),
        decreases results.len() - i,
    {
        let ghost before = texts(docs@);
        assert(results@.take(i + 1).drop_last() =~= results@.take(i as int));
        assert(results@.take(i + 1).last() == results[i as int]);
        match results[i].relevance {
            Relevance::Relevant(_) => {
                docs.push(results[i].path.clone());
                assert(texts(docs@) =~= before.push(results[i as int].path@));
            },
            Relevance::NonRelevant => {},
        }
        i = i + 1;
    }
    assert(results@.take(i as int) =~= results@);
    docs
}

impl Example {
    /// An example whose query is the query text normalised under `globals`.
    pub fn parse(
        query: &str,
        narrative: String,
        results: Vec<ResultData>,
        globals: &Globals,
    ) -> (example: Self)
        requires
            globals.wf(),
        ensures
            example.query.wf(),
            example.query.term_seq() == distinct(
                terms_of(query@, globals.stop_texts(), globals.n_grams as nat),
            ),
            example.narrative == narrative,
            example.results == results,
    {
        Example { query: Query::new(query, globals), narrative, results }
    }
}

impl EvaluationData {
    /// Evaluation data over the repository at `repo`, which must be a valid
    /// URL.
    pub fn parse(repo: &str, examples: Vec<Example>) -> (parsed: Result<Self, EvaluationError>)
        ensures
            parsed is Ok <==> valid_url(repo@),
            parsed matches Ok(data) ==> data.examples == examples,
    {
        match parse_url(repo) {
            Ok(url) => Ok(EvaluationData { repo: url, examples }),
            Err(error) => Err(EvaluationError::InvalidRepository(error)),
        }
    }
}

} // verus!
