//! What is derived from the mapping of an index: its documents and their
//! lengths, and in how many documents a term occurs.

use crate::inverted_index::model::{
    consistent, documents, lengths_agree, recorded_under, TermDocument,
};
use vstd::prelude::*;

verus! {

/// Number of documents that contain term `t`; none for a term that the
/// mapping does not hold.
pub open spec fn doc_freq_of(m: Map<Seq<char>, Map<Seq<char>, TermDocument>>, t: Seq<char>) -> nat {
    recorded_under(m, t).dom().len()
}

/// Number of documents of the mapping.
pub open spec fn num_docs_of(m: Map<Seq<char>, Map<Seq<char>, TermDocument>>) -> nat {
    documents(m).len()
}

/// A term under which the mapping records document `d`.
pub open spec fn term_of_document(
    m: Map<Seq<char>, Map<Seq<char>, TermDocument>>,
    d: Seq<char>,
) -> Seq<char> {
    choose|t: Seq<char>| m.contains_key(t) && #[trigger] m[t].contains_key(d)
}

/// The length of document `d`, as one of its records gives it.
pub open spec fn document_length(
    m: Map<Seq<char>, Map<Seq<char>, TermDocument>>,
    d: Seq<char>,
) -> nat {
    m[term_of_document(m, d)][d].length as nat
}

/// The lengths of all documents of the mapping added up, each document
/// counted once.
pub open spec fn total_length(m: Map<Seq<char>, Map<Seq<char>, TermDocument>>) -> nat {
    documents(m).fold(0nat, |sum: nat, d: Seq<char>| sum + document_length(m, d))
}

/// Every record of a document gives the length of the document.
pub proof fn lemma_document_length(
    m: Map<Seq<char>, Map<Seq<char>, TermDocument>>,
    t: Seq<char>,
    d: Seq<char>,
)
    requires
        lengths_agree(m),
        m.contains_key(t),
        m[t].contains_key(d),
    ensures
        documents(m).contains(d),
        document_length(m, d) == m[t][d].length,
{
    let c = term_of_document(m, d);
    assert(m.contains_key(c) && m[c].contains_key(d));
}

/// A consistent mapping has finitely many documents.
pub proof fn lemma_documents_finite(m: Map<Seq<char>, Map<Seq<char>, TermDocument>>)
    requires
        consistent(m),
    ensures
        documents(m).finite(),
{
    let doms = m.dom().map(|t: Seq<char>| m[t].dom());
    m.dom().lemma_map_finite(|t: Seq<char>| m[t].dom());
    assert forall|s: Set<Seq<char>>| doms.contains(s) implies #[trigger] s.finite() by {
        let t = choose|t: Seq<char>| m.dom().contains(t) && s == m[t].dom();
        assert(m.contains_key(t));
    }
    doms.lemma_flatten_finite();
    assert forall|d: Seq<char>| documents(m).contains(d) implies doms.flatten().contains(d) by {
        let t = choose|t: Seq<char>| m.contains_key(t) && #[trigger] m[t].contains_key(d);
        assert(m.dom().contains(t));
        assert(doms.contains(m[t].dom()));
        assert(m[t].dom().contains(d));
    }
    assert forall|d: Seq<char>| doms.flatten().contains(d) implies documents(m).contains(d) by {
        let s = choose|s: Set<Seq<char>>| #[trigger] doms.contains(s) && s.contains(d);
        let t = choose|t: Seq<char>| m.dom().contains(t) && s == m[t].dom();
        assert(m.contains_key(t) && m[t].contains_key(d));
    }
    assert(documents(m) =~= doms.flatten());
}

/// No term occurs in more documents than the index holds.
pub proof fn lemma_doc_freq_at_most_num_docs(
    m: Map<Seq<char>, Map<Seq<char>, TermDocument>>,
    t: Seq<char>,
)
    requires
        consistent(m),
    ensures
        doc_freq_of(m, t) <= num_docs_of(m),
{
    lemma_documents_finite(m);
    if m.contains_key(t) {
        assert forall|d: Seq<char>| m[t].dom().contains(d) implies documents(m).contains(d) by {
            assert(m[t].contains_key(d));
        }
        vstd::set_lib::lemma_len_subset(m[t].dom(), documents(m));
    } else {
        assert(recorded_under(m, t).dom() =~= Set::<Seq<char>>::empty());
    }
}

} // verus!
