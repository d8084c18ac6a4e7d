//! The mathematical model of the index and of its representation.

use vstd::prelude::*;

verus! {


/// A canonical unit of text, as normalisation produces it: one stemmed word,
/// or several joined by single spaces.
#[derive(Hash, Eq, PartialEq, Debug, Clone)]
pub struct Term(pub String);

impl View for Term {
    type V = Seq<char>;

    open spec fn view(&self) -> Seq<char> {
        self.0@
    }
}

/// The texts of a sequence of terms, in the same order.
pub open spec fn term_texts(terms: Seq<Term>) -> Seq<Seq<char>> {
    Seq::new(terms.len(), |i: int| terms[i]@)
}

/// What the index records of one term in one document.
#[derive(Debug, Clone, Copy, PartialEq, Eq)]
pub struct TermDocument {
    /// Number of tokens of the document when the term was recorded.
    pub length: usize,
    /// Number of times the term occurs in the document.
    pub term_freq: usize,
}

/// One document under a term: where it is, and its statistics.
pub struct Posting {
    pub doc_path: String,
    pub stats: TermDocument,
}

/// One term of the index with the documents that contain it.
pub struct TermEntry {
    pub term: Term,
    pub postings: Vec<Posting>,
}

/// The documents of a posting list, in its order.
pub open spec fn posting_docs(ps: Seq<Posting>) -> Seq<Seq<char>> {
    Seq::new(ps.len(), |i: int| ps[i].doc_path@)
}

/// A posting list as a mapping from document to statistics.
pub open spec fn postings_map(ps: Seq<Posting>) -> Map<Seq<char>, TermDocument> {
    Map::new(
        |d: Seq<char>| posting_docs(ps).contains(d),
        |d: Seq<char>| ps[posting_docs(ps).index_of(d)].stats,
    )
}

/// The terms of a list of entries, in its order.
pub open spec fn entry_terms(es: Seq<TermEntry>) -> Seq<Seq<char>> {
    Seq::new(es.len(), |i: int| es[i].term@)
}

/// A list of entries as a mapping from term to document to statistics.
pub open spec fn entries_map(es: Seq<TermEntry>) -> Map<Seq<char>, Map<Seq<char>, TermDocument>> {
    Map::new(
        |t: Seq<char>| entry_terms(es).contains(t),
        |t: Seq<char>| postings_map(es[entry_terms(es).index_of(t)].postings@),
    )
}

/// A posting list holds each document once, and at least one; a term that is
/// recorded occurs at least once.
pub open spec fn postings_wf(ps: Seq<Posting>) -> bool {
    &&& ps.len() > 0
    &&& posting_docs(ps).no_duplicates()
    &&& forall|j: int| 0 <= j < ps.len() ==> (#[trigger] ps[j]).stats.term_freq >= 1
}

/// Each term stands once, with a well-formed posting list.
pub open spec fn entries_wf(es: Seq<TermEntry>) -> bool {
    &&& entry_terms(es).no_duplicates()
    &&& forall|i: int| 0 <= i < es.len() ==> postings_wf((#[trigger] es[i]).postings@)
}

/// The documents of a mapping: those that stand under at least one term.
pub open spec fn documents(m: Map<Seq<char>, Map<Seq<char>, TermDocument>>) -> Set<Seq<char>> {
    Set::new(|d: Seq<char>| exists|t: Seq<char>| m.contains_key(t) && #[trigger] m[t].contains_key(d))
}

/// All records of one document give it the same length.
pub open spec fn lengths_agree(m: Map<Seq<char>, Map<Seq<char>, TermDocument>>) -> bool {
    forall|t1: Seq<char>, t2: Seq<char>, d: Seq<char>|
        m.contains_key(t1) && #[trigger] m[t1].contains_key(d) && m.contains_key(t2)
            && #[trigger] m[t2].contains_key(d) ==> m[t1][d].length == m[t2][d].length
}

/// What holds of the mapping of every index: finitely many terms, each in
/// finitely many documents and in at least one; every recorded frequency is
/// at least one; and the records of one document agree on its length.
pub open spec fn consistent(m: Map<Seq<char>, Map<Seq<char>, TermDocument>>) -> bool {
    &&& m.dom().finite()
    &&& forall|t: Seq<char>| #[trigger]
        m.contains_key(t) ==> m[t].dom().finite() && m[t].dom().len() > 0
    &&& forall|t: Seq<char>, d: Seq<char>|
        m.contains_key(t) && #[trigger] m[t].contains_key(d) ==> m[t][d].term_freq >= 1
    &&& lengths_agree(m)
}

/// An element of a sequence without duplicates is found at its own place.
pub proof fn lemma_index_of_unique(keys: Seq<Seq<char>>, i: int)
    requires
        keys.no_duplicates(),
        0 <= i < keys.len(),
    ensures
        keys.contains(keys[i]),
        keys.index_of(keys[i]) == i,
{
    assert(keys.contains(keys[i]));
    let j = keys.index_of(keys[i]);
    assert(0 <= j < keys.len() && keys[j] == keys[i]);
}

/// What a posting list records of the document at place `j`.
pub proof fn lemma_posting_at(ps: Seq<Posting>, j: int)
    requires
        posting_docs(ps).no_duplicates(),
        0 <= j < ps.len(),
    ensures
        postings_map(ps).contains_key(ps[j].doc_path@),
        postings_map(ps)[ps[j].doc_path@] == ps[j].stats,
{
    lemma_index_of_unique(posting_docs(ps), j);
    assert(posting_docs(ps)[j] == ps[j].doc_path@);
}

/// The documents of a posting list are finitely many, as many as its places.
pub proof fn lemma_postings_len(ps: Seq<Posting>)
    requires
        posting_docs(ps).no_duplicates(),
    ensures
        postings_map(ps).dom() == posting_docs(ps).to_set(),
        postings_map(ps).dom().finite(),
        postings_map(ps).dom().len() == ps.len(),
{
    assert(postings_map(ps).dom() =~= posting_docs(ps).to_set());
    vstd::seq_lib::seq_to_set_is_finite(posting_docs(ps));
    posting_docs(ps).unique_seq_to_set();
}

/// What a list of entries records of the term at place `i`.
pub proof fn lemma_entry_at(es: Seq<TermEntry>, i: int)
    requires
        entry_terms(es).no_duplicates(),
        0 <= i < es.len(),
    ensures
        entries_map(es).contains_key(es[i].term@),
        entries_map(es)[es[i].term@] == postings_map(es[i].postings@),
{
    lemma_index_of_unique(entry_terms(es), i);
    assert(entry_terms(es)[i] == es[i].term@);
}

/// A term of the mapping stands at some place of the list.
pub proof fn lemma_entry_of(es: Seq<TermEntry>, t: Seq<char>) -> (i: int)
    requires
        entry_terms(es).no_duplicates(),
        entries_map(es).contains_key(t),
    ensures
        0 <= i < es.len(),
        es[i].term@ == t,
        entries_map(es)[t] == postings_map(es[i].postings@),
{
    let i = entry_terms(es).index_of(t);
    assert(entry_terms(es).contains(t));
    assert(0 <= i < es.len() && entry_terms(es)[i] == t);
    i
}

/// A document of a posting map stands at some place of the list.
pub proof fn lemma_posting_of(ps: Seq<Posting>, d: Seq<char>) -> (j: int)
    requires
        postings_map(ps).contains_key(d),
    ensures
        0 <= j < ps.len(),
        ps[j].doc_path@ == d,
        postings_map(ps)[d] == ps[j].stats,
{
    let j = posting_docs(ps).index_of(d);
    assert(posting_docs(ps).contains(d));
    assert(0 <= j < ps.len() && posting_docs(ps)[j] == d);
    j
}

/// One more posting, for a document that the list does not hold, is one
/// more key of the mapping.
pub proof fn lemma_postings_push(ps: Seq<Posting>, p: Posting)
    requires
        posting_docs(ps).no_duplicates(),
        !posting_docs(ps).contains(p.doc_path@),
    ensures
        posting_docs(ps.push(p)).no_duplicates(),
        postings_map(ps.push(p)) == postings_map(ps).insert(p.doc_path@, p.stats),
{
    let qs = ps.push(p);
    assert(posting_docs(qs) =~= posting_docs(ps).push(p.doc_path@));
    assert forall|i: int, j: int|
        0 <= i < qs.len() && 0 <= j < qs.len() && i != j implies posting_docs(qs)[i]
        != posting_docs(qs)[j] by {
        if i < ps.len() {
            assert(posting_docs(ps)[i] == posting_docs(qs)[i]);
        }
        if j < ps.len() {
            assert(posting_docs(ps)[j] == posting_docs(qs)[j]);
        }
    }
    let lhs = postings_map(qs);
    let rhs = postings_map(ps).insert(p.doc_path@, p.stats);
    assert forall|d: Seq<char>| lhs.contains_key(d) <==> rhs.contains_key(d) by {
        if lhs.contains_key(d) {
            let j = lemma_posting_of(qs, d);
            if j < ps.len() {
                assert(posting_docs(ps)[j] == d);
            }
        }
        if rhs.contains_key(d) {
            if d == p.doc_path@ {
                assert(posting_docs(qs)[ps.len() as int] == d);
            } else {
                let j = lemma_posting_of(ps, d);
                assert(posting_docs(qs)[j] == d);
            }
        }
    }
    assert forall|d: Seq<char>| lhs.contains_key(d) implies lhs[d] == rhs[d] by {
        let j = lemma_posting_of(qs, d);
        lemma_posting_at(qs, j);
        if j < ps.len() {
            lemma_posting_at(ps, j);
            assert(posting_docs(ps)[j] == d);
        }
    }
    assert(lhs =~= rhs);
}

/// One more entry, for a term that the list does not hold, is one more key
/// of the mapping.
pub proof fn lemma_entries_push(es: Seq<TermEntry>, e: TermEntry)
    requires
        entry_terms(es).no_duplicates(),
        !entry_terms(es).contains(e.term@),
    ensures
        entry_terms(es.push(e)).no_duplicates(),
        entries_map(es.push(e)) == entries_map(es).insert(e.term@, postings_map(e.postings@)),
{
    let fs = es.push(e);
    assert(entry_terms(fs) =~= entry_terms(es).push(e.term@));
    assert forall|i: int, j: int|
        0 <= i < fs.len() && 0 <= j < fs.len() && i != j implies entry_terms(fs)[i] != entry_terms(
        fs,
    )[j] by {
        if i < es.len() {
            assert(entry_terms(es)[i] == entry_terms(fs)[i]);
        }
        if j < es.len() {
            assert(entry_terms(es)[j] == entry_terms(fs)[j]);
        }
    }
    let lhs = entries_map(fs);
    let rhs = entries_map(es).insert(e.term@, postings_map(e.postings@));
    assert forall|t: Seq<char>| lhs.contains_key(t) <==> rhs.contains_key(t) by {
        if lhs.contains_key(t) {
            let i = lemma_entry_of(fs, t);
            if i < es.len() {
                assert(entry_terms(es)[i] == t);
            }
        }
        if rhs.contains_key(t) {
            if t == e.term@ {
                assert(entry_terms(fs)[es.len() as int] == t);
            } else {
                let i = lemma_entry_of(es, t);
                assert(entry_terms(fs)[i] == t);
            }
        }
    }
    assert forall|t: Seq<char>| lhs.contains_key(t) implies lhs[t] == rhs[t] by {
        let i = lemma_entry_of(fs, t);
        lemma_entry_at(fs, i);
        if i < es.len() {
            lemma_entry_at(es, i);
            assert(entry_terms(es)[i] == t);
        }
    }
    assert(lhs =~= rhs);
}

/// A new posting list for the term at place `i` is a new value under its key.
pub proof fn lemma_entries_update(es: Seq<TermEntry>, i: int, e: TermEntry)
    requires
        entry_terms(es).no_duplicates(),
        0 <= i < es.len(),
        e.term@ == es[i].term@,
    ensures
        entry_terms(es.update(i, e)) == entry_terms(es),
        entries_map(es.update(i, e)) == entries_map(es).insert(e.term@, postings_map(e.postings@)),
{
    let fs = es.update(i, e);
    assert(entry_terms(fs) =~= entry_terms(es));
    let lhs = entries_map(fs);
    let rhs = entries_map(es).insert(e.term@, postings_map(e.postings@));
    assert forall|t: Seq<char>| lhs.contains_key(t) <==> rhs.contains_key(t) by {
        if t == e.term@ {
            assert(entry_terms(es)[i] == t);
        }
    }
    assert forall|t: Seq<char>| lhs.contains_key(t) implies lhs[t] == rhs[t] by {
        let k = lemma_entry_of(fs, t);
        assert(entry_terms(es)[i] == e.term@);
        assert(entry_terms(es)[k] == t);
        if k != i {
            lemma_entry_at(es, k);
            assert(fs[k] == es[k]);
        } else {
            assert(fs[i] == e);
        }
    }
    assert(lhs =~= rhs);
}

/// The documents recorded under a term, none if the mapping lacks the term.
pub open spec fn recorded_under(
    m: Map<Seq<char>, Map<Seq<char>, TermDocument>>,
    t: Seq<char>,
) -> Map<Seq<char>, TermDocument> {
    if m.contains_key(t) {
        m[t]
    } else {
        Map::empty()
    }
}

/// The mapping with one more record: document `d` under term `t`.
pub open spec fn with_record(
    m: Map<Seq<char>, Map<Seq<char>, TermDocument>>,
    t: Seq<char>,
    d: Seq<char>,
    stats: TermDocument,
) -> Map<Seq<char>, Map<Seq<char>, TermDocument>> {
    m.insert(t, recorded_under(m, t).insert(d, stats))
}

/// Whether `length` is the length that the mapping already gives document
/// `d`, wherever it records it.
pub open spec fn length_fits(
    m: Map<Seq<char>, Map<Seq<char>, TermDocument>>,
    d: Seq<char>,
    length: usize,
) -> bool {
    forall|t: Seq<char>|
        m.contains_key(t) && #[trigger] m[t].contains_key(d) ==> m[t][d].length == length
}

/// The mapping without document `d`: its records are gone, and so is every
/// term that no other document contains.
pub open spec fn without_document(
    m: Map<Seq<char>, Map<Seq<char>, TermDocument>>,
    d: Seq<char>,
) -> Map<Seq<char>, Map<Seq<char>, TermDocument>> {
    Map::new(
        |t: Seq<char>| m.contains_key(t) && has_other_document(m[t], d),
        |t: Seq<char>| m[t].remove(d),
    )
}

/// Whether some document other than `d` stands in the posting map.
pub open spec fn has_other_document(pm: Map<Seq<char>, TermDocument>, d: Seq<char>) -> bool {
    exists|o: Seq<char>| o != d && #[trigger] pm.contains_key(o)
}

/// Dropping the posting at place `j` drops its document from the mapping.
pub proof fn lemma_postings_remove(ps: Seq<Posting>, j: int)
    requires
        posting_docs(ps).no_duplicates(),
        0 <= j < ps.len(),
    ensures
        posting_docs(ps.remove(j)).no_duplicates(),
        postings_map(ps.remove(j)) == postings_map(ps).remove(ps[j].doc_path@),
{
    let qs = ps.remove(j);
    let d = ps[j].doc_path@;
    assert forall|a: int| 0 <= a < qs.len() implies #[trigger] posting_docs(qs)[a] == posting_docs(
        ps,
    )[if a < j {
        a
    } else {
        a + 1
    }] by {}
    assert forall|a: int, b: int|
        0 <= a < qs.len() && 0 <= b < qs.len() && a != b implies posting_docs(qs)[a]
        != posting_docs(qs)[b] by {
        let a2 = if a < j { a } else { a + 1 };
        let b2 = if b < j { b } else { b + 1 };
        assert(posting_docs(ps)[a2] != posting_docs(ps)[b2]);
    }
    let lhs = postings_map(qs);
    let rhs = postings_map(ps).remove(d);
    assert forall|x: Seq<char>| lhs.contains_key(x) <==> rhs.contains_key(x) by {
        if lhs.contains_key(x) {
            let a = lemma_posting_of(qs, x);
            let a2 = if a < j { a } else { a + 1 };
            assert(posting_docs(ps)[a2] == x);
            assert(posting_docs(ps)[j] == d);
        }
        if rhs.contains_key(x) {
            let b = lemma_posting_of(ps, x);
            let b2 = if b < j { b } else { b - 1 };
            assert(posting_docs(qs)[b2] == x);
        }
    }
    assert forall|x: Seq<char>| lhs.contains_key(x) implies lhs[x] == rhs[x] by {
        let a = lemma_posting_of(qs, x);
        let a2 = if a < j { a } else { a + 1 };
        lemma_posting_at(ps, a2);
    }
    assert(lhs =~= rhs);
}

/// How [`without_document`] treats one more term.
pub proof fn lemma_without_document_insert(
    m: Map<Seq<char>, Map<Seq<char>, TermDocument>>,
    t: Seq<char>,
    pm: Map<Seq<char>, TermDocument>,
    d: Seq<char>,
)
    requires
        !m.contains_key(t),
    ensures
        without_document(m.insert(t, pm), d) == if has_other_document(pm, d) {
            without_document(m, d).insert(t, pm.remove(d))
        } else {
            without_document(m, d)
        },
{
    let lhs = without_document(m.insert(t, pm), d);
    let rhs = if has_other_document(pm, d) {
        without_document(m, d).insert(t, pm.remove(d))
    } else {
        without_document(m, d)
    };
    assert(lhs =~= rhs);
}

/// A prefix of well-formed entries is well formed.
pub proof fn lemma_entries_wf_take(es: Seq<TermEntry>, n: int)
    requires
        entries_wf(es),
        0 <= n <= es.len(),
    ensures
        entries_wf(es.take(n)),
        entry_terms(es.take(n)) == entry_terms(es).take(n),
{
    assert(entry_terms(es.take(n)) =~= entry_terms(es).take(n));
    assert forall|i: int| 0 <= i < n implies postings_wf((#[trigger] es.take(n)[i]).postings@) by {
        assert(es.take(n)[i] == es[i]);
    }
}

/// Fewer records of the same documents still agree on their lengths.
pub proof fn lemma_without_document_agrees(
    m: Map<Seq<char>, Map<Seq<char>, TermDocument>>,
    d: Seq<char>,
)
    requires
        lengths_agree(m),
    ensures
        lengths_agree(without_document(m, d)),
        !documents(without_document(m, d)).contains(d),
{
    let w = without_document(m, d);
    assert forall|t1: Seq<char>, t2: Seq<char>, x: Seq<char>|
        w.contains_key(t1) && #[trigger] w[t1].contains_key(x) && w.contains_key(t2)
            && #[trigger] w[t2].contains_key(x) implies w[t1][x].length == w[t2][x].length by {
        assert(m[t1].contains_key(x) && m[t2].contains_key(x));
    }
}

/// The mapping with the records `doc` of document `d` added: one under each
/// term of `doc`.
pub open spec fn merged_document(
    m: Map<Seq<char>, Map<Seq<char>, TermDocument>>,
    d: Seq<char>,
    doc: Map<Seq<char>, TermDocument>,
) -> Map<Seq<char>, Map<Seq<char>, TermDocument>> {
    Map::new(
        |t: Seq<char>| m.contains_key(t) || doc.contains_key(t),
        |t: Seq<char>|
            if doc.contains_key(t) {
                recorded_under(m, t).insert(d, doc[t])
            } else {
                m[t]
            },
    )
}

/// Adding the records of a document term by term: one more term in `doc`
/// is one more record in the mapping.
pub proof fn lemma_merged_document_insert(
    m: Map<Seq<char>, Map<Seq<char>, TermDocument>>,
    d: Seq<char>,
    doc: Map<Seq<char>, TermDocument>,
    t: Seq<char>,
    stats: TermDocument,
)
    requires
        !doc.contains_key(t),
    ensures
        merged_document(m, d, doc.insert(t, stats)) == with_record(
            merged_document(m, d, doc),
            t,
            d,
            stats,
        ),
        recorded_under(merged_document(m, d, doc), t) == recorded_under(m, t),
{
    let lhs = merged_document(m, d, doc.insert(t, stats));
    let rhs = with_record(merged_document(m, d, doc), t, d, stats);
    assert(lhs =~= rhs);
}

/// The mapping after document `d` is recorded anew with the records `doc`:
/// what it held of `d` before is gone.
pub open spec fn with_document(
    m: Map<Seq<char>, Map<Seq<char>, TermDocument>>,
    d: Seq<char>,
    doc: Map<Seq<char>, TermDocument>,
) -> Map<Seq<char>, Map<Seq<char>, TermDocument>> {
    merged_document(without_document(m, d), d, doc)
}

/// What the mapping records of document `d`: its statistics under each term
/// that it contains.
pub open spec fn records_of(
    m: Map<Seq<char>, Map<Seq<char>, TermDocument>>,
    d: Seq<char>,
) -> Map<Seq<char>, TermDocument> {
    Map::new(|t: Seq<char>| m.contains_key(t) && m[t].contains_key(d), |t: Seq<char>| m[t][d])
}

/// After a document is recorded anew the mapping holds of it exactly its new
/// records, and of every other document what it held before.
pub proof fn lemma_with_document_records(
    m: Map<Seq<char>, Map<Seq<char>, TermDocument>>,
    d: Seq<char>,
    doc: Map<Seq<char>, TermDocument>,
    o: Seq<char>,
)
    ensures
        records_of(with_document(m, d, doc), o) == if o == d {
            doc
        } else {
            records_of(m, o)
        },
        documents(with_document(m, d, doc)).contains(d) <==> exists|t: Seq<char>|
            doc.contains_key(t),
{
    let w = with_document(m, d, doc);
    let lhs = records_of(w, o);
    if o == d {
        assert(lhs =~= doc);
    } else {
        assert forall|t: Seq<char>| lhs.contains_key(t) <==> records_of(m, o).contains_key(t) by {
            if m.contains_key(t) && m[t].contains_key(o) {
                assert(has_other_document(m[t], d));
            }
        }
        assert(lhs =~= records_of(m, o));
    }
    if documents(w).contains(d) {
        let t = choose|t: Seq<char>| w.contains_key(t) && #[trigger] w[t].contains_key(d);
        assert(doc.contains_key(t));
    }
    if exists|t: Seq<char>| doc.contains_key(t) {
        let t = choose|t: Seq<char>| doc.contains_key(t);
        assert(w.contains_key(t) && w[t].contains_key(d));
    }
}

} // verus!
