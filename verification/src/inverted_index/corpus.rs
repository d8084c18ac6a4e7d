//! Building an index from a set of files, and what the index is in terms of
//! the files that it was built from.

use crate::inverted_index::document::document_postings;
use crate::inverted_index::index::InvertedIndex;
use crate::inverted_index::index::table_docs;
use crate::inverted_index::model::{
    consistent, documents, has_other_document, lemma_without_document_agrees, records_of,
    with_document, without_document, TermDocument,
};
use crate::text_transform::transform::{stemmed_tokens, terms_of, Globals};
use vstd::prelude::*;

verus! {

/// A file as it was found: where it is, and what it holds. `None` stands for
/// a file that could not be read as text.
pub struct SourceFile {
    pub path: String,
    pub content: Option<String>,
}

impl View for SourceFile {
    type V = (Seq<char>, Option<Seq<char>>);

    open spec fn view(&self) -> (Seq<char>, Option<Seq<char>>) {
        (
            self.path@,
            match self.content {
                Some(text) => Some(text@),
                None => None,
            },
        )
    }
}

/// The files of a list as plain values, in its order.
pub open spec fn file_views(files: Seq<SourceFile>) -> Seq<(Seq<char>, Option<Seq<char>>)> {
    Seq::new(files.len(), |i: int| files[i]@)
}

/// The records of a document with the given text: one for each of its terms,
/// with the number of its occurrences and with the number of stemmed tokens
/// of the text as the length.
pub open spec fn text_postings(text: Seq<char>, stop: Seq<Seq<char>>, n: nat) -> Map<
    Seq<char>,
    TermDocument,
> {
    document_postings(terms_of(text, stop, n), stemmed_tokens(text, stop).len() as usize)
}

/// The documents that a list of files gives, each with its records. A file
/// that could not be read gives none; of two files at one path the later
/// counts.
pub open spec fn corpus_of(
    files: Seq<(Seq<char>, Option<Seq<char>>)>,
    stop: Seq<Seq<char>>,
    n: nat,
) -> Map<Seq<char>, Map<Seq<char>, TermDocument>>
    decreases files.len(),
{
    if files.len() == 0 {
        Map::empty()
    } else {
        let before = corpus_of(files.drop_last(), stop, n);
        match files.last().1 {
            Some(text) => before.insert(files.last().0, text_postings(text, stop, n)),
            None => before,
        }
    }
}

/// A mapping from document to term turned round: from term to the documents
/// that have a record under it.
pub open spec fn inverted(corpus: Map<Seq<char>, Map<Seq<char>, TermDocument>>) -> Map<
    Seq<char>,
    Map<Seq<char>, TermDocument>,
> {
    Map::new(
        |t: Seq<char>|
            exists|d: Seq<char>| corpus.contains_key(d) && #[trigger] corpus[d].contains_key(t),
        |t: Seq<char>|
            Map::new(
                |d: Seq<char>| corpus.contains_key(d) && corpus[d].contains_key(t),
                |d: Seq<char>| corpus[d][t],
            ),
    )
}

/// Recording a document anew in the index of a corpus gives the index of
/// the corpus with that document replaced.
pub proof fn lemma_with_document_inverted(
    corpus: Map<Seq<char>, Map<Seq<char>, TermDocument>>,
    d: Seq<char>,
    doc: Map<Seq<char>, TermDocument>,
)
    ensures
        with_document(inverted(corpus), d, doc) == inverted(corpus.insert(d, doc)),
{
    let m = inverted(corpus);
    let w = without_document(m, d);
    let lhs = with_document(m, d, doc);
    let after = corpus.insert(d, doc);
    let rhs = inverted(after);
    assert forall|t: Seq<char>| lhs.contains_key(t) <==> rhs.contains_key(t) by {
        if lhs.contains_key(t) {
            if doc.contains_key(t) {
                assert(after.contains_key(d) && after[d].contains_key(t));
            } else {
                assert(w.contains_key(t));
                let o = choose|o: Seq<char>| o != d && #[trigger] m[t].contains_key(o);
                assert(after.contains_key(o) && after[o].contains_key(t));
            }
        }
        if rhs.contains_key(t) {
            let x = choose|x: Seq<char>| after.contains_key(x) && #[trigger] after[x].contains_key(t);
            if x != d {
                assert(corpus.contains_key(x) && corpus[x].contains_key(t));
                assert(m.contains_key(t));
                assert(m[t].contains_key(x));
                assert(has_other_document(m[t], d));
                assert(w.contains_key(t));
            }
        }
    }
    assert forall|t: Seq<char>| lhs.contains_key(t) implies lhs[t] =~= rhs[t] by {
        assert forall|o: Seq<char>| lhs[t].contains_key(o) <==> rhs[t].contains_key(o) by {
            if o != d && rhs[t].contains_key(o) {
                assert(corpus.contains_key(o) && corpus[o].contains_key(t));
                assert(m.contains_key(t));
                assert(m[t].contains_key(o));
                assert(has_other_document(m[t], d));
                assert(w.contains_key(t));
            }
        }
    }
    assert(lhs =~= rhs);
}

/// Whether no two files of the list stand at one path.
pub open spec fn distinct_paths(files: Seq<(Seq<char>, Option<Seq<char>>)>) -> bool {
    forall|i: int, j: int|
        0 <= i < files.len() && 0 <= j < files.len() && i != j ==> files[i].0 != files[j].0
}

/// With no two files at one path, the corpus holds exactly the readable
/// files, each with the records of its own text.
pub proof fn lemma_corpus_of_distinct(
    files: Seq<(Seq<char>, Option<Seq<char>>)>,
    stop: Seq<Seq<char>>,
    n: nat,
)
    requires
        distinct_paths(files),
    ensures
        forall|d: Seq<char>|
            corpus_of(files, stop, n).contains_key(d) <==> exists|i: int|
                0 <= i < files.len() && (#[trigger] files[i]).0 == d && files[i].1 is Some,
        forall|i: int|
            0 <= i < files.len() && (#[trigger] files[i]).1 is Some ==> corpus_of(
                files,
                stop,
                n,
            )[files[i].0] == text_postings(files[i].1->0, stop, n),
    decreases files.len(),
{
    if files.len() > 0 {
        let init = files.drop_last();
        let last = files.last();
        let c = corpus_of(files, stop, n);
        assert forall|i: int, j: int|
            0 <= i < init.len() && 0 <= j < init.len() && i != j implies init[i].0
            != init[j].0 by {
            assert(init[i] == files[i] && init[j] == files[j]);
        }
        lemma_corpus_of_distinct(init, stop, n);
        let before = corpus_of(init, stop, n);
        assert(c == match last.1 {
            Some(text) => before.insert(last.0, text_postings(text, stop, n)),
            None => before,
        });
        assert forall|d: Seq<char>| c.contains_key(d) <==> exists|i: int|
            0 <= i < files.len() && (#[trigger] files[i]).0 == d && files[i].1 is Some by {
            if c.contains_key(d) {
                if last.1 is Some && last.0 == d {
                    assert(files[files.len() - 1].0 == d);
                } else {
                    assert(before.contains_key(d));
                    let i = choose|i: int|
                        0 <= i < init.len() && (#[trigger] init[i]).0 == d && init[i].1 is Some;
                    assert(files[i] == init[i]);
                }
            }
            if exists|i: int|
                0 <= i < files.len() && (#[trigger] files[i]).0 == d && files[i].1 is Some {
                let i = choose|i: int|
                    0 <= i < files.len() && (#[trigger] files[i]).0 == d && files[i].1 is Some;
                if i < init.len() {
                    assert(init[i] == files[i]);
                }
            }
        }
        assert forall|i: int| 0 <= i < files.len() && (#[trigger] files[i]).1 is Some implies c[files[i].0]
            == text_postings(files[i].1->0, stop, n) by {
            if i < init.len() {
                assert(init[i] == files[i]);
                assert(files[i].0 != files[files.len() - 1].0);
            }
        }
    }
}

/// The order in which files are processed does not matter: two lists of the
/// same files, in any order, with no two files at one path, give the same
/// corpus, and so the same index.
pub proof fn lemma_build_order(
    a: Seq<(Seq<char>, Option<Seq<char>>)>,
    b: Seq<(Seq<char>, Option<Seq<char>>)>,
    stop: Seq<Seq<char>>,
    n: nat,
)
    requires
        distinct_paths(a),
        distinct_paths(b),
        a.to_set() == b.to_set(),
    ensures
        corpus_of(a, stop, n) == corpus_of(b, stop, n),
        inverted(corpus_of(a, stop, n)) == inverted(corpus_of(b, stop, n)),
{
    let ca = corpus_of(a, stop, n);
    let cb = corpus_of(b, stop, n);
    lemma_corpus_of_distinct(a, stop, n);
    lemma_corpus_of_distinct(b, stop, n);
    assert forall|d: Seq<char>| ca.contains_key(d) implies cb.contains_key(d) && ca[d] == cb[d] by {
        let i = choose|i: int| 0 <= i < a.len() && (#[trigger] a[i]).0 == d && a[i].1 is Some;
        assert(a.to_set().contains(a[i]));
        assert(b.contains(a[i]));
        let j = b.index_of(a[i]);
        assert(b[j] == a[i]);
    }
    assert forall|d: Seq<char>| cb.contains_key(d) implies ca.contains_key(d) by {
        let j = choose|j: int| 0 <= j < b.len() && (#[trigger] b[j]).0 == d && b[j].1 is Some;
        assert(b.to_set().contains(b[j]));
        assert(a.contains(b[j]));
        let i = a.index_of(b[j]);
        assert(a[i] == b[j]);
    }
    assert(ca =~= cb);
}

/// The documents of a mapping, each with its records: the mapping turned
/// round.
pub open spec fn transposed(m: Map<Seq<char>, Map<Seq<char>, TermDocument>>) -> Map<
    Seq<char>,
    Map<Seq<char>, TermDocument>,
> {
    Map::new(|d: Seq<char>| documents(m).contains(d), |d: Seq<char>| records_of(m, d))
}

/// Turning the mapping of an index round twice gives it back.
pub proof fn lemma_inverted_transposed(m: Map<Seq<char>, Map<Seq<char>, TermDocument>>)
    requires
        consistent(m),
    ensures
        inverted(transposed(m)) == m,
{
    let c = transposed(m);
    let lhs = inverted(c);
    assert forall|t: Seq<char>| lhs.contains_key(t) <==> m.contains_key(t) by {
        if lhs.contains_key(t) {
            let d = choose|d: Seq<char>| c.contains_key(d) && #[trigger] c[d].contains_key(t);
            assert(records_of(m, d).contains_key(t));
        }
        if m.contains_key(t) {
            assert(m[t].dom().len() > 0);
            let d = m[t].dom().choose();
            assert(m[t].contains_key(d));
            assert(documents(m).contains(d));
            assert(c.contains_key(d) && c[d].contains_key(t));
        }
    }
    assert forall|t: Seq<char>| lhs.contains_key(t) implies lhs[t] =~= m[t] by {
        assert forall|d: Seq<char>| lhs[t].contains_key(d) <==> m[t].contains_key(d) by {
            if m[t].contains_key(d) {
                assert(documents(m).contains(d));
            }
        }
    }
    assert(lhs =~= m);
}

/// Two mappings put together: the index of the documents of both. Of a
/// document that both hold, the records of `b` count.
pub open spec fn merged(
    a: Map<Seq<char>, Map<Seq<char>, TermDocument>>,
    b: Map<Seq<char>, Map<Seq<char>, TermDocument>>,
) -> Map<Seq<char>, Map<Seq<char>, TermDocument>> {
    inverted(transposed(a).union_prefer_right(transposed(b)))
}

/// Two indexes that share no document can be put together in either order.
pub proof fn lemma_merge_commutes(
    a: Map<Seq<char>, Map<Seq<char>, TermDocument>>,
    b: Map<Seq<char>, Map<Seq<char>, TermDocument>>,
)
    requires
        documents(a).disjoint(documents(b)),
    ensures
        merged(a, b) == merged(b, a),
{
    assert(transposed(a).union_prefer_right(transposed(b)) =~= transposed(b).union_prefer_right(
        transposed(a),
    ));
}

/// Whether every document of the corpus has at least one record.
pub open spec fn no_empty_document(corpus: Map<Seq<char>, Map<Seq<char>, TermDocument>>) -> bool {
    forall|d: Seq<char>|
        corpus.contains_key(d) ==> exists|t: Seq<char>| #[trigger] corpus[d].contains_key(t)
}

/// Turning a corpus without empty documents round twice gives it back.
pub proof fn lemma_transposed_inverted(corpus: Map<Seq<char>, Map<Seq<char>, TermDocument>>)
    requires
        no_empty_document(corpus),
    ensures
        transposed(inverted(corpus)) == corpus,
{
    let m = inverted(corpus);
    let lhs = transposed(m);
    assert forall|d: Seq<char>| lhs.contains_key(d) <==> corpus.contains_key(d) by {
        if lhs.contains_key(d) {
            let t = choose|t: Seq<char>| m.contains_key(t) && #[trigger] m[t].contains_key(d);
        }
        if corpus.contains_key(d) {
            let t = choose|t: Seq<char>| #[trigger] corpus[d].contains_key(t);
            assert(corpus.contains_key(d) && corpus[d].contains_key(t));
            assert(m.contains_key(t));
            assert(m[t].contains_key(d));
        }
    }
    assert forall|d: Seq<char>| lhs.contains_key(d) implies lhs[d] =~= corpus[d] by {
        assert forall|t: Seq<char>| lhs[d].contains_key(t) <==> corpus[d].contains_key(t) by {
            if corpus[d].contains_key(t) {
                assert(corpus.contains_key(d) && corpus[d].contains_key(t));
                assert(m.contains_key(t));
            }
        }
    }
    assert(lhs =~= corpus);
}

/// A mapping turned round has no empty document.
pub proof fn lemma_transposed_not_empty(m: Map<Seq<char>, Map<Seq<char>, TermDocument>>)
    ensures
        no_empty_document(transposed(m)),
{
    let c = transposed(m);
    assert forall|d: Seq<char>| c.contains_key(d) implies exists|t: Seq<char>| #[trigger]
        c[d].contains_key(t) by {
        let t = choose|t: Seq<char>| m.contains_key(t) && #[trigger] m[t].contains_key(d);
        assert(c[d].contains_key(t));
    }
}

/// Putting three indexes together gives the same, whichever two are put
/// together first.
pub proof fn lemma_merge_associative(
    a: Map<Seq<char>, Map<Seq<char>, TermDocument>>,
    b: Map<Seq<char>, Map<Seq<char>, TermDocument>>,
    c: Map<Seq<char>, Map<Seq<char>, TermDocument>>,
)
    ensures
        merged(merged(a, b), c) == merged(a, merged(b, c)),
{
    let ta = transposed(a);
    let tb = transposed(b);
    let tc = transposed(c);
    lemma_transposed_not_empty(a);
    lemma_transposed_not_empty(b);
    lemma_transposed_not_empty(c);
    let ab = ta.union_prefer_right(tb);
    let bc = tb.union_prefer_right(tc);
    assert(no_empty_document(ab)) by {
        assert forall|d: Seq<char>| ab.contains_key(d) implies exists|t: Seq<char>| #[trigger]
            ab[d].contains_key(t) by {
            if tb.contains_key(d) {
                let t = choose|t: Seq<char>| #[trigger] tb[d].contains_key(t);
                assert(ab[d].contains_key(t));
            } else {
                let t = choose|t: Seq<char>| #[trigger] ta[d].contains_key(t);
                assert(ab[d].contains_key(t));
            }
        }
    }
    assert(no_empty_document(bc)) by {
        assert forall|d: Seq<char>| bc.contains_key(d) implies exists|t: Seq<char>| #[trigger]
            bc[d].contains_key(t) by {
            if tc.contains_key(d) {
                let t = choose|t: Seq<char>| #[trigger] tc[d].contains_key(t);
                assert(bc[d].contains_key(t));
            } else {
                let t = choose|t: Seq<char>| #[trigger] tb[d].contains_key(t);
                assert(bc[d].contains_key(t));
            }
        }
    }
    lemma_transposed_inverted(ab);
    lemma_transposed_inverted(bc);
    assert(ab.union_prefer_right(tc) =~= ta.union_prefer_right(bc));
}

/// Taking in the index of one document alone, which has at least one
/// record, records that document anew.
pub proof fn lemma_merge_one_document(
    m: Map<Seq<char>, Map<Seq<char>, TermDocument>>,
    d: Seq<char>,
    doc: Map<Seq<char>, TermDocument>,
)
    requires
        consistent(m),
        exists|t: Seq<char>| doc.contains_key(t),
    ensures
        merged(m, inverted(Map::<Seq<char>, Map<Seq<char>, TermDocument>>::empty().insert(d, doc)))
            == with_document(m, d, doc),
{
    let one = Map::<Seq<char>, Map<Seq<char>, TermDocument>>::empty().insert(d, doc);
    assert(no_empty_document(one)) by {
        let t = choose|t: Seq<char>| doc.contains_key(t);
        assert(one[d].contains_key(t));
    }
    lemma_transposed_inverted(one);
    lemma_inverted_transposed(m);
    lemma_with_document_inverted(transposed(m), d, doc);
    assert(transposed(m).union_prefer_right(one) =~= transposed(m).insert(d, doc));
}

impl InvertedIndex {
    /// Builds the index of a set of files: each readable file is normalised
    /// under `globals` and recorded; a file without content is skipped.
    pub fn new(files: &Vec<SourceFile>, globals: &Globals) -> (index: Self)
        requires
            globals.wf(),
        ensures
            index.wf(),
            index@ == inverted(
                corpus_of(file_views(files@), globals.stop_texts(), globals.n_grams as nat),
            ),
    {
        let ghost all = file_views(files@);
        let ghost stop = globals.stop_texts();
        let ghost n = globals.n_grams as nat;
        let mut index = InvertedIndex::empty();
        let mut i: usize = 0;
        proof {
            assert(all.take(0) =~= Seq::<(Seq<char>, Option<Seq<char>>)>::empty());
            assert(index@ =~= inverted(corpus_of(all.take(0), stop, n)));
        }
        while i < files.len()
            invariant
                0 <= i <= files.len(),
                globals.wf(),
                all == file_views(files@),
                stop == globals.stop_texts(),
                n == globals.n_grams as nat,
                index.wf(),
                index@ == inverted(corpus_of(all.take(i as int), stop, n)),
            decreases files.len() - i,
        {
            proof {
                assert(all.take(i + 1).drop_last() =~= all.take(i as int));
                assert(all.take(i + 1).last() == files[i as int]@);
            }
            match &files[i].content {
                Some(text) => {
                    proof {
                        lemma_with_document_inverted(
                            corpus_of(all.take(i as int), stop, n),
                            files[i as int].path@,
                            text_postings(text@, stop, n),
                        );
                    }
                    index.update(files[i].path.as_str(), Some(text.as_str()), globals);
                },
                None => {},
            }
            i = i + 1;
        }
        proof {
            assert(all.take(i as int) =~= all);
        }
        index
    }

    /// The index of one document alone.
    pub fn process_document(path: &str, content: &str, globals: &Globals) -> (index: Self)
        requires
            globals.wf(),
        ensures
            index.wf(),
            index@ == inverted(
                Map::<Seq<char>, Map<Seq<char>, TermDocument>>::empty().insert(
                    path@,
                    text_postings(content@, globals.stop_texts(), globals.n_grams as nat),
                ),
            ),
    {
        let mut index = InvertedIndex::empty();
        proof {
            let none = Map::<Seq<char>, Map<Seq<char>, TermDocument>>::empty();
            assert(index@ =~= inverted(none));
            lemma_with_document_inverted(
                none,
                path@,
                text_postings(content@, globals.stop_texts(), globals.n_grams as nat),
            );
        }
        index.update(path, Some(content), globals);
        index
    }

    /// Takes the documents of another index into this one. A document that
    /// both hold is then recorded as the other index has it.
    pub fn merge(&mut self, other: &InvertedIndex)
        requires
            old(self).wf(),
            other.wf(),
        ensures
            final(self).wf(),
            final(self)@ == merged(old(self)@, other@),
    {
        let ghost ca = transposed(self@);
        let ghost cb = transposed(other@);
        let table = other.document_table();
        let ghost docs = table_docs(table@);
        let mut k: usize = 0;
        proof {
            self.lemma_consistent();
            lemma_inverted_transposed(self@);
            assert(docs.take(0).to_set() =~= Set::<Seq<char>>::empty());
            assert(ca.union_prefer_right(cb.restrict(Set::<Seq<char>>::empty())) =~= ca);
        }
        while k < table.len()
            invariant
                0 <= k <= table.len(),
                other.wf(),
                cb == transposed(other@),
                docs == table_docs(table@),
                docs.to_set() == documents(other@),
                self.wf(),
                self@ == inverted(ca.union_prefer_right(cb.restrict(docs.take(k as int).to_set()))),
            decreases table.len() - k,
        {
            let ghost d = docs[k as int];
            let ghost done = docs.take(k as int).to_set();
            let ghost corpus = ca.union_prefer_right(cb.restrict(done));
            let records = other.document_records(table[k].doc_path.as_str());
            proof {
                assert(table[k as int].doc_path@ == d);
                assert(docs.take(k + 1) =~= docs.take(k as int).push(d));
                docs.take(k as int).lemma_push_to_set_commute(d);
                assert(docs.to_set().contains(d));
                lemma_with_document_inverted(corpus, d, records_of(other@, d));
                assert(corpus.insert(d, records_of(other@, d)) =~= ca.union_prefer_right(
                    cb.restrict(done.insert(d)),
                ));
                self.lemma_consistent();
                lemma_without_document_agrees(self@, d);
            }
            self.remove_document(table[k].doc_path.as_str());
            self.add_records(&table[k].doc_path, &records);
            k = k + 1;
        }
        proof {
            assert(docs.take(k as int) =~= docs);
            assert(cb.restrict(docs.to_set()) =~= cb);
        }
    }
}

} // verus!
