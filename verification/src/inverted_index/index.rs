//! The index itself and its operations.

use crate::inverted_index::document::{
    count_terms, document_postings, lemma_record_of, lemma_records_take, record_terms, records_map,
    records_wf, TermRecord,
};
use crate::inverted_index::stats::{
    doc_freq_of, document_length, lemma_doc_freq_at_most_num_docs, lemma_document_length,
    num_docs_of, total_length,
};
use crate::inverted_index::model::{
    consistent, documents, entries_map, entries_wf, entry_terms, has_other_document,
    lemma_entries_push, lemma_entries_update, lemma_entries_wf_take, lemma_entry_at, lemma_entry_of,
    lemma_index_of_unique, lemma_merged_document_insert, lemma_posting_at, lemma_posting_of,
    lemma_postings_len, lemma_postings_push, lemma_postings_remove, lemma_without_document_agrees,
    lemma_without_document_insert, length_fits, lengths_agree, merged_document, posting_docs,
    postings_map, postings_wf, recorded_under, records_of, with_document, with_record,
    without_document, Posting, Term, TermDocument, TermEntry,
};
use crate::text_transform::query::{distinct, lemma_distinct};
use crate::text_transform::tokens::texts;
use crate::text_transform::transform::{
    n_gram_terms, stem_tokens, stemmed_tokens, terms_of, Globals,
};
use vstd::prelude::*;

verus! {

/// The index: the terms in the order in which they were first recorded, each
/// with its documents in the order in which they were recorded.
pub struct InvertedIndex {
    entries: Vec<TermEntry>,
}

impl View for InvertedIndex {
    type V = Map<Seq<char>, Map<Seq<char>, TermDocument>>;

    closed spec fn view(&self) -> Map<Seq<char>, Map<Seq<char>, TermDocument>> {
        entries_map(self.entries@)
    }
}

/// The place of `term` among the entries, if it has one.
pub fn find_term(entries: &Vec<TermEntry>, term: &Term) -> (found: Option<usize>)
    ensures
        match found {
            Some(i) => i < entries.len() && entries[i as int].term@ == term@ && forall|k: int|
                0 <= k < i ==> entry_terms(entries@)[k] != term@,
            None => !entry_terms(entries@).contains(term@),
        },
{
    let mut i: usize = 0;
    while i < entries.len()
        invariant
            0 <= i <= entries.len(),
            forall|k: int| 0 <= k < i ==> entry_terms(entries@)[k] != term@,
        decreases entries.len() - i,
    {
        if entries[i].term.0 == term.0 {
            return Some(i);
        }
        i = i + 1;
    }
    None
}

/// The place of document `path` in a posting list, if it has one.
pub fn find_doc(postings: &Vec<Posting>, path: &String) -> (found: Option<usize>)
    ensures
        match found {
            Some(j) => j < postings.len() && postings[j as int].doc_path@ == path@ && forall|
                k: int,
            | 0 <= k < j ==> posting_docs(postings@)[k] != path@,
            None => !posting_docs(postings@).contains(path@),
        },
{
    let mut j: usize = 0;
    while j < postings.len()
        invariant
            0 <= j <= postings.len(),
            forall|k: int| 0 <= k < j ==> posting_docs(postings@)[k] != path@,
        decreases postings.len() - j,
    {
        if postings[j].doc_path == *path {
            return Some(j);
        }
        j = j + 1;
    }
    None
}

/// The documents under the given terms, term by term, each term's documents
/// in the order of the index. A document stands once for each of the terms
/// that it contains.
pub open spec fn hits(index: InvertedIndex, terms: Seq<Seq<char>>) -> Seq<Seq<char>>
    decreases terms.len(),
{
    if terms.len() == 0 {
        Seq::empty()
    } else {
        hits(index, terms.drop_last()) + index.doc_order(terms.last())
    }
}

/// The documents that contain at least one of the terms.
pub open spec fn matching_documents(
    m: Map<Seq<char>, Map<Seq<char>, TermDocument>>,
    terms: Set<Seq<char>>,
) -> Set<Seq<char>> {
    Set::new(
        |d: Seq<char>|
            exists|t: Seq<char>|
                terms.contains(t) && m.contains_key(t) && #[trigger] m[t].contains_key(d),
    )
}

/// The hits of a list of terms are the documents that contain one of them.
pub proof fn lemma_hits_match(index: InvertedIndex, terms: Seq<Seq<char>>)
    requires
        index.wf(),
    ensures
        hits(index, terms).to_set() == matching_documents(index@, terms.to_set()),
    decreases terms.len(),
{
    let m = index@;
    let lhs = hits(index, terms).to_set();
    let rhs = matching_documents(m, terms.to_set());
    if terms.len() == 0 {
        assert(lhs =~= rhs);
    } else {
        let init = terms.drop_last();
        let t = terms.last();
        lemma_hits_match(index, init);
        index.lemma_orders(t);
        let a = hits(index, init);
        let b = index.doc_order(t);
        assert forall|d: Seq<char>| lhs.contains(d) implies rhs.contains(d) by {
            let i = (a + b).index_of(d);
            assert((a + b)[i] == d);
            if i < a.len() {
                assert(a[i] == d);
                assert(a.to_set().contains(d));
                let x = choose|x: Seq<char>|
                    init.to_set().contains(x) && m.contains_key(x) && #[trigger] m[x].contains_key(
                        d,
                    );
                let at = init.index_of(x);
                assert(terms[at] == x);
            } else {
                assert(b[i - a.len()] == d);
                assert(b.to_set().contains(d));
                assert(terms[terms.len() - 1] == t);
                assert(m.contains_key(t) && m[t].contains_key(d));
            }
        }
        assert forall|d: Seq<char>| rhs.contains(d) implies lhs.contains(d) by {
            let x = choose|x: Seq<char>|
                terms.to_set().contains(x) && m.contains_key(x) && #[trigger] m[x].contains_key(d);
            let at = terms.index_of(x);
            assert(terms[at] == x);
            if at < init.len() {
                assert(init[at] == x);
                assert(init.to_set().contains(x));
                assert(matching_documents(m, init.to_set()).contains(d));
                assert(a.to_set().contains(d));
                let i = a.index_of(d);
                assert((a + b)[i] == d);
            } else {
                assert(x == t);
                assert(b.to_set().contains(d));
                let i = b.index_of(d);
                assert((a + b)[a.len() + i] == d);
            }
        }
        assert(lhs =~= rhs);
    }
}

/// With all terms of the mapping asked for, every document matches.
pub proof fn lemma_all_documents_match(m: Map<Seq<char>, Map<Seq<char>, TermDocument>>)
    ensures
        matching_documents(m, m.dom()) == documents(m),
{
    assert(matching_documents(m, m.dom()) =~= documents(m));
}

/// Those of the terms under which the mapping records document `d`, in
/// their order.
pub open spec fn terms_holding(
    m: Map<Seq<char>, Map<Seq<char>, TermDocument>>,
    terms: Seq<Seq<char>>,
    d: Seq<char>,
) -> Seq<Seq<char>> {
    terms.filter(|t: Seq<char>| recorded_under(m, t).contains_key(d))
}

/// Filtering keeps the elements that pass, and names none twice that the
/// sequence names once.
pub proof fn lemma_terms_holding(
    m: Map<Seq<char>, Map<Seq<char>, TermDocument>>,
    terms: Seq<Seq<char>>,
    d: Seq<char>,
)
    requires
        terms.no_duplicates(),
    ensures
        terms_holding(m, terms, d).no_duplicates(),
        forall|t: Seq<char>|
            terms_holding(m, terms, d).contains(t) <==> terms.contains(t) && recorded_under(
                m,
                t,
            ).contains_key(d),
    decreases terms.len(),
{
    let keep = |t: Seq<char>| recorded_under(m, t).contains_key(d);
    reveal(Seq::filter);
    if terms.len() > 0 {
        let init = terms.drop_last();
        let last = terms.last();
        assert(init.no_duplicates()) by {
            assert forall|i: int, j: int|
                0 <= i < init.len() && 0 <= j < init.len() && i != j implies init[i]
                != init[j] by {
                assert(terms[i] != terms[j]);
            }
        }
        lemma_terms_holding(m, init, d);
        let before = init.filter(keep);
        let all = terms.filter(keep);
        assert(all == if keep(last) {
            before.push(last)
        } else {
            before
        });
        assert(!init.contains(last)) by {
            if init.contains(last) {
                let i = init.index_of(last);
                assert(terms[i] == terms[terms.len() - 1]);
            }
        }
        assert forall|t: Seq<char>| all.contains(t) <==> terms.contains(t) && keep(t) by {
            if all.contains(t) {
                let i = all.index_of(t);
                assert(all[i] == t);
                if keep(last) && i == all.len() - 1 {
                    assert(terms[terms.len() - 1] == t);
                } else {
                    assert(before[i] == t);
                    assert(before.contains(t));
                    assert(init.contains(t));
                    let j = init.index_of(t);
                    assert(init[j] == t);
                    assert(terms[j] == t);
                }
            }
            if terms.contains(t) && keep(t) {
                let j = terms.index_of(t);
                if j == terms.len() - 1 {
                    assert(all[all.len() - 1] == t);
                } else {
                    assert(init[j] == t);
                    assert(before.contains(t));
                    let i = before.index_of(t);
                    assert(all[i] == t);
                }
            }
        }
        if keep(last) {
            assert(all == before.push(last));
            assert forall|i: int, j: int|
                0 <= i < all.len() && 0 <= j < all.len() && i != j implies all[i] != all[j] by {
                if i < before.len() && j < before.len() {
                    assert(before[i] != before[j]);
                } else if i < before.len() {
                    assert(before.contains(before[i]));
                } else {
                    assert(before.contains(before[j]));
                }
            }
        }
    }
}

/// A document of the index with its length.
pub struct DocumentLength {
    pub doc_path: String,
    pub length: usize,
}

/// The documents of a table, in its order.
pub open spec fn table_docs(table: Seq<DocumentLength>) -> Seq<Seq<char>> {
    Seq::new(table.len(), |i: int| table[i].doc_path@)
}

/// The lengths of the first `n` documents of a table added up.
pub open spec fn table_total(table: Seq<DocumentLength>, n: int) -> nat
    decreases n,
{
    if n <= 0 {
        0
    } else {
        table_total(table, n - 1) + table[n - 1].length as nat
    }
}

/// The sum of all document lengths, and the number of documents that it
/// was taken over: their quotient is the average document length.
#[derive(Debug, Clone, Copy, PartialEq, Eq)]
pub struct MeanLength {
    pub total: u128,
    pub count: usize,
}

/// The lengths of a table of distinct documents add up to the total length
/// of the mapping whose documents they are.
pub proof fn lemma_table_total(
    m: Map<Seq<char>, Map<Seq<char>, TermDocument>>,
    table: Seq<DocumentLength>,
    n: int,
)
    requires
        0 <= n <= table.len(),
        table_docs(table).no_duplicates(),
        forall|k: int|
            0 <= k < table.len() ==> (#[trigger] table[k]).length == document_length(
                m,
                table[k].doc_path@,
            ),
    ensures
        table_docs(table).take(n).to_set().finite(),
        table_docs(table).take(n).to_set().fold(
            0nat,
            |sum: nat, d: Seq<char>| sum + document_length(m, d),
        ) == table_total(table, n),
    decreases n,
{
    let f = |sum: nat, d: Seq<char>| sum + document_length(m, d);
    let docs = table_docs(table);
    vstd::seq_lib::seq_to_set_is_finite(docs.take(n));
    if n == 0 {
        assert(docs.take(0).to_set() =~= Set::<Seq<char>>::empty());
        vstd::set::fold::lemma_fold_empty(0nat, f);
    } else {
        lemma_table_total(m, table, n - 1);
        let d = docs[n - 1];
        let before = docs.take(n - 1);
        assert(docs.take(n) =~= before.push(d));
        before.lemma_push_to_set_commute(d);
        assert(!before.to_set().contains(d)) by {
            if before.contains(d) {
                let a = before.index_of(d);
                assert(docs[a] == docs[n - 1]);
            }
        }
        assert(vstd::set::fold::is_fun_commutative(f));
        vstd::set::fold::lemma_fold_insert(before.to_set(), 0nat, f, d);
        assert(table[n - 1].doc_path@ == d);
    }
}

/// Whether the table lists document `path`.
pub fn table_contains(table: &Vec<DocumentLength>, path: &String) -> (found: bool)
    ensures
        found == table_docs(table@).contains(path@),
{
    let mut k: usize = 0;
    while k < table.len()
        invariant
            0 <= k <= table.len(),
            forall|a: int| 0 <= a < k ==> table_docs(table@)[a] != path@,
        decreases table.len() - k,
    {
        if table[k].doc_path == *path {
            assert(table_docs(table@)[k as int] == path@);
            return true;
        }
        k = k + 1;
    }
    false
}

impl InvertedIndex {
    /// The invariant of the representation; it implies [`consistent`] of the
    /// view.
    pub closed spec fn wf(&self) -> bool {
        &&& entries_wf(self.entries@)
        &&& lengths_agree(entries_map(self.entries@))
    }

    /// The mapping of a well-formed index is consistent.
    pub proof fn lemma_consistent(&self)
        requires
            self.wf(),
        ensures
            consistent(self@),
    {
        let es = self.entries@;
        let m = self@;
        assert(m.dom() =~= entry_terms(es).to_set());
        vstd::seq_lib::seq_to_set_is_finite(entry_terms(es));
        assert forall|t: Seq<char>| #[trigger] m.contains_key(t) implies m[t].dom().finite()
            && m[t].dom().len() > 0 by {
            let i = lemma_entry_of(es, t);
            lemma_postings_len(es[i].postings@);
        }
        assert forall|t: Seq<char>, d: Seq<char>|
            m.contains_key(t) && #[trigger] m[t].contains_key(d) implies m[t][d].term_freq
            >= 1 by {
            let i = lemma_entry_of(es, t);
            let j = lemma_posting_of(es[i].postings@, d);
        }
    }

    /// The index of no document.
    pub fn empty() -> (index: Self)
        ensures
            index.wf(),
            index@ == Map::<Seq<char>, Map<Seq<char>, TermDocument>>::empty(),
    {
        let index = InvertedIndex { entries: Vec::new() };
        assert(index@ =~= Map::<Seq<char>, Map<Seq<char>, TermDocument>>::empty());
        index
    }

    /// Records document `path` under `term`, which does not hold it yet.
    fn record(&mut self, term: Term, path: &String, stats: TermDocument)
        requires
            old(self).wf(),
            stats.term_freq >= 1,
            !recorded_under(old(self)@, term@).contains_key(path@),
            length_fits(old(self)@, path@, stats.length),
        ensures
            final(self).wf(),
            final(self)@ == with_record(old(self)@, term@, path@, stats),
    {
        let ghost es = self.entries@;
        let posting = Posting { doc_path: path.clone(), stats };
        match find_term(&self.entries, &term) {
            Some(i) => {
                proof {
                    lemma_entry_at(es, i as int);
                    lemma_postings_push(es[i as int].postings@, posting);
                }
                self.entries[i].postings.push(posting);
                proof {
                    let e = self.entries@[i as int];
                    assert(self.entries@ =~= es.update(i as int, e));
                    lemma_entries_update(es, i as int, e);
                }
            },
            None => {
                let mut postings: Vec<Posting> = Vec::new();
                postings.push(posting);
                let entry = TermEntry { term, postings };
                proof {
                    lemma_postings_push(Seq::<Posting>::empty(), posting);
                    assert(postings_map(Seq::<Posting>::empty()) =~= Map::<
                        Seq<char>,
                        TermDocument,
                    >::empty());
                    assert(entry.postings@ =~= Seq::<Posting>::empty().push(posting));
                    lemma_entries_push(es, entry);
                }
                self.entries.push(entry);
            },
        }
    }

    /// Forgets document `path`: all its records, and every term that was
    /// recorded for it alone.
    pub fn remove_document(&mut self, path: &str)
        requires
            old(self).wf(),
        ensures
            final(self).wf(),
            final(self)@ == without_document(old(self)@, path@),
    {
        let path = String::from_str(path);
        let ghost d = path@;
        let ghost es0 = self.entries@;
        let ghost mut k: int = 0;
        let mut i: usize = 0;
        proof {
            assert(entries_map(es0.take(0)) =~= Map::<
                Seq<char>,
                Map<Seq<char>, TermDocument>,
            >::empty());
            assert(without_document(entries_map(es0.take(0)), d) =~= entries_map(
                self.entries@.take(0),
            ));
        }
        while i < self.entries.len()
            invariant
                d == path@,
                entries_wf(es0),
                0 <= i <= self.entries.len(),
                0 <= k <= es0.len(),
                self.entries.len() - i == es0.len() - k,
                self.entries@.skip(i as int) == es0.skip(k),
                entries_wf(self.entries@),
                forall|a: int|
                    0 <= a < i ==> entry_terms(es0.take(k)).contains(
                        #[trigger] entry_terms(self.entries@)[a],
                    ),
                entries_map(self.entries@.take(i as int)) == without_document(
                    entries_map(es0.take(k)),
                    d,
                ),
            decreases self.entries.len() - i,
        {
            let ghost cur = self.entries@;
            let ghost e = cur[i as int];
            let ghost ps = e.postings@;
            let ghost pm = postings_map(ps);
            let ghost done = entries_map(es0.take(k));
            proof {
                assert(cur.skip(i as int)[0] == es0.skip(k)[0]);
                assert(e == es0[k]);
                lemma_entries_wf_take(es0, k);
                lemma_entries_wf_take(es0, k + 1);
                lemma_entries_wf_take(cur, i as int);
                assert(es0.take(k + 1) =~= es0.take(k).push(e));
                assert(!entry_terms(es0.take(k)).contains(e.term@)) by {
                    if entry_terms(es0.take(k)).contains(e.term@) {
                        let a = entry_terms(es0.take(k)).index_of(e.term@);
                        assert(entry_terms(es0)[a] == entry_terms(es0)[k]);
                    }
                }
                lemma_entries_push(es0.take(k), e);
                lemma_without_document_insert(done, e.term@, pm, d);
                assert(!entry_terms(cur.take(i as int)).contains(e.term@)) by {
                    if entry_terms(cur.take(i as int)).contains(e.term@) {
                        let a = entry_terms(cur.take(i as int)).index_of(e.term@);
                        assert(entry_terms(cur)[a] == entry_terms(cur)[i as int]);
                    }
                }
                assert(postings_wf(ps));
                assert(posting_docs(ps)[0] == ps[0].doc_path@);
                lemma_posting_at(ps, 0);
                assert forall|a: int| 0 <= a < i implies entry_terms(es0.take(k + 1)).contains(
                    #[trigger] entry_terms(cur)[a],
                ) by {
                    let b = entry_terms(es0.take(k)).index_of(entry_terms(cur)[a]);
                    assert(entry_terms(es0.take(k + 1))[b] == entry_terms(cur)[a]);
                }
            }
            match find_doc(&self.entries[i].postings, &path) {
                Some(j) => {
                    proof {
                        lemma_posting_at(ps, j as int);
                    }
                    if self.entries[i].postings.len() == 1 {
                        proof {
                            assert(!has_other_document(pm, d)) by {
                                if has_other_document(pm, d) {
                                    let o = choose|o: Seq<char>| o != d && pm.contains_key(o);
                                    let b = lemma_posting_of(ps, o);
                                }
                            }
                        }
                        self.entries.remove(i);
                        proof {
                            assert(self.entries@.take(i as int) =~= cur.take(i as int));
                            assert(self.entries@.skip(i as int) =~= cur.skip(i as int).skip(1));
                            assert(es0.skip(k + 1) =~= es0.skip(k).skip(1));
                            assert(entry_terms(self.entries@) =~= entry_terms(cur).remove(
                                i as int,
                            ));
                            assert forall|a: int, b: int|
                                0 <= a < self.entries@.len() && 0 <= b < self.entries@.len() && a
                                    != b implies entry_terms(self.entries@)[a] != entry_terms(
                                self.entries@,
                            )[b] by {
                                let a2 = if a < i { a } else { a + 1 };
                                let b2 = if b < i { b } else { b + 1 };
                                assert(entry_terms(cur)[a2] != entry_terms(cur)[b2]);
                            }
                            assert forall|a: int| 0 <= a < self.entries@.len() implies postings_wf(
                                (#[trigger] self.entries@[a]).postings@,
                            ) by {
                                let a2 = if a < i { a } else { a + 1 };
                                assert(self.entries@[a] == cur[a2]);
                            }
                            assert forall|a: int| 0 <= a < i implies entry_terms(
                                es0.take(k + 1),
                            ).contains(#[trigger] entry_terms(self.entries@)[a]) by {
                                assert(entry_terms(self.entries@)[a] == entry_terms(cur)[a]);
                            }
                            k = k + 1;
                        }
                    } else {
                        proof {
                            let other = if j == 0 { 1int } else { 0int };
                            lemma_posting_at(ps, other);
                            assert(posting_docs(ps)[other] != posting_docs(ps)[j as int]);
                            assert(pm.contains_key(ps[other].doc_path@));
                            assert(has_other_document(pm, d));
                            lemma_postings_remove(ps, j as int);
                        }
                        self.entries[i].postings.remove(j);
                        proof {
                            let e2 = self.entries@[i as int];
                            assert(e2.postings@ == ps.remove(j as int));
                            assert(self.entries@ =~= cur.update(i as int, e2));
                            assert(entry_terms(self.entries@) =~= entry_terms(cur));
                            assert(postings_wf(e2.postings@)) by {
                                assert forall|b: int| 0 <= b < e2.postings@.len() implies (
                                #[trigger] e2.postings@[b]).stats.term_freq >= 1 by {
                                    let b2 = if b < j { b } else { b + 1 };
                                    assert(e2.postings@[b] == ps[b2]);
                                }
                            }
                            assert forall|a: int| 0 <= a < self.entries@.len() implies postings_wf(
                                (#[trigger] self.entries@[a]).postings@,
                            ) by {
                                if a != i {
                                    assert(self.entries@[a] == cur[a]);
                                }
                            }
                            assert(self.entries@.take(i + 1) =~= cur.take(i as int).push(e2));
                            lemma_entries_push(cur.take(i as int), e2);
                            assert(self.entries@.skip(i + 1) =~= cur.skip(i as int).skip(1));
                            assert(es0.skip(k + 1) =~= es0.skip(k).skip(1));
                            assert(entry_terms(es0.take(k + 1))[k] == e.term@);
                            k = k + 1;
                        }
                        i = i + 1;
                    }
                },
                None => {
                    proof {
                        assert(!pm.contains_key(d));
                        assert(pm.remove(d) =~= pm);
                        assert(pm.contains_key(ps[0].doc_path@));
                        assert(has_other_document(pm, d));
                        assert(cur.take(i + 1) =~= cur.take(i as int).push(e));
                        lemma_entries_push(cur.take(i as int), e);
                        assert(cur.skip(i + 1) =~= cur.skip(i as int).skip(1));
                        assert(es0.skip(k + 1) =~= es0.skip(k).skip(1));
                        assert(entry_terms(es0.take(k + 1))[k] == e.term@);
                        k = k + 1;
                    }
                    i = i + 1;
                },
            }
        }
        proof {
            assert(self.entries@.take(i as int) =~= self.entries@);
            assert(es0.take(k) =~= es0);
            lemma_without_document_agrees(entries_map(es0), d);
        }
    }

    /// Records a document that the index does not hold, under each of the
    /// terms of its records.
    pub(crate) fn add_records(&mut self, path: &String, records: &Vec<TermRecord>)
        requires
            old(self).wf(),
            records_wf(records@),
            !documents(old(self)@).contains(path@),
        ensures
            final(self).wf(),
            final(self)@ == merged_document(old(self)@, path@, records_map(records@)),
    {
        let ghost m0 = self@;
        let ghost d = path@;
        let mut k: usize = 0;
        proof {
            assert(records_map(records@.take(0)) =~= Map::<Seq<char>, TermDocument>::empty());
            assert(merged_document(m0, d, Map::<Seq<char>, TermDocument>::empty()) =~= m0);
        }
        while k < records.len()
            invariant
                0 <= k <= records.len(),
                d == path@,
                records_wf(records@),
                !documents(m0).contains(d),
                self.wf(),
                self@ == merged_document(m0, d, records_map(records@.take(k as int))),
            decreases records.len() - k,
        {
            let ghost doc = records_map(records@.take(k as int));
            let ghost t = records[k as int].term@;
            let stats = records[k].stats;
            proof {
                lemma_records_take(records@, k as int);
                lemma_merged_document_insert(m0, d, doc, t, stats);
                assert(!recorded_under(m0, t).contains_key(d)) by {
                    if recorded_under(m0, t).contains_key(d) {
                        assert(m0.contains_key(t) && m0[t].contains_key(d));
                    }
                }
                assert(length_fits(self@, d, stats.length)) by {
                    assert forall|x: Seq<char>|
                        self@.contains_key(x) && #[trigger] self@[x].contains_key(
                            d,
                        ) implies self@[x][d].length == stats.length by {
                        if doc.contains_key(x) {
                            let i = lemma_record_of(records@.take(k as int), x);
                            assert(records@.take(k as int)[i] == records@[i]);
                        } else {
                            assert(m0.contains_key(x) && m0[x].contains_key(d));
                        }
                    }
                }
            }
            self.record(Term(records[k].term.0.clone()), path, stats);
            k = k + 1;
        }
        proof {
            assert(records@.take(k as int) =~= records@);
        }
    }

    /// Records one document anew. With `None` for the content, which stands
    /// for a file that could not be read, the index stays as it is. Else what
    /// the index held of the document is replaced by its terms under
    /// `globals`, each with the number of its occurrences, and by its length,
    /// the number of its stemmed tokens.
    pub fn update(&mut self, path: &str, content: Option<&str>, globals: &Globals)
        requires
            old(self).wf(),
            globals.wf(),
        ensures
            final(self).wf(),
            final(self)@ == match content {
                None => old(self)@,
                Some(text) => with_document(
                    old(self)@,
                    path@,
                    document_postings(
                        terms_of(text@, globals.stop_texts(), globals.n_grams as nat),
                        stemmed_tokens(text@, globals.stop_texts()).len() as usize,
                    ),
                ),
            },
    {
        match content {
            None => {},
            Some(text) => {
                let tokens = stem_tokens(text, globals);
                let length = tokens.len();
                let terms = n_gram_terms(&tokens, globals.n_grams);
                let owned = String::from_str(path);
                proof {
                    assert(texts(tokens@).len() == tokens@.len());
                    lemma_without_document_agrees(self@, path@);
                }
                let records = count_terms(&terms, length);
                self.remove_document(path);
                self.add_records(&owned, &records);
            },
        }
    }

    /// The terms of the index with their posting lists, in the order in
    /// which they were first recorded.
    pub fn entries(&self) -> (entries: &Vec<TermEntry>)
        requires
            self.wf(),
        ensures
            entries_wf(entries@),
            entries_map(entries@) == self@,
            entry_terms(entries@) == self.term_order(),
            forall|i: int|
                0 <= i < entries.len() ==> posting_docs((#[trigger] entries[i]).postings@)
                    == self.doc_order(entries[i].term@),
    {
        proof {
            assert forall|i: int| 0 <= i < self.entries.len() implies posting_docs(
                (#[trigger] self.entries[i]).postings@,
            ) == self.doc_order(self.entries[i].term@) by {
                lemma_index_of_unique(entry_terms(self.entries@), i);
            }
        }
        &self.entries
    }

    /// The terms in the order in which the index lists them.
    pub closed spec fn term_order(&self) -> Seq<Seq<char>> {
        entry_terms(self.entries@)
    }

    /// The documents under term `t` in the order in which the index lists
    /// them; none for a term that the index does not hold.
    pub closed spec fn doc_order(&self, t: Seq<char>) -> Seq<Seq<char>> {
        if entry_terms(self.entries@).contains(t) {
            posting_docs(self.entries@[entry_terms(self.entries@).index_of(t)].postings@)
        } else {
            Seq::empty()
        }
    }

    /// The two orders list what the mapping holds, each term and each
    /// document under a term once.
    pub proof fn lemma_orders(&self, t: Seq<char>)
        requires
            self.wf(),
        ensures
            self.term_order().no_duplicates(),
            self.term_order().to_set() == self@.dom(),
            self.doc_order(t).no_duplicates(),
            self.doc_order(t).to_set() == recorded_under(self@, t).dom(),
    {
        let es = self.entries@;
        assert(self@.dom() =~= entry_terms(es).to_set());
        if entry_terms(es).contains(t) {
            let i = lemma_entry_of(es, t);
            lemma_index_of_unique(entry_terms(es), i);
            lemma_postings_len(es[i].postings@);
        } else {
            assert(recorded_under(self@, t).dom() =~= Set::<Seq<char>>::empty());
            assert(self.doc_order(t).to_set() =~= Set::<Seq<char>>::empty());
        }
    }

    /// The posting list of `term`, if the index holds the term.
    pub fn postings(&self, term: &Term) -> (found: Option<&Vec<Posting>>)
        requires
            self.wf(),
        ensures
            found is Some <==> self@.contains_key(term@),
            found matches Some(ps) ==> postings_wf(ps@) && postings_map(ps@) == self@[term@]
                && posting_docs(ps@) == self.doc_order(term@),
            found is None ==> self.doc_order(term@) == Seq::<Seq<char>>::empty(),
    {
        match find_term(&self.entries, term) {
            Some(i) => {
                proof {
                    lemma_entry_at(self.entries@, i as int);
                    lemma_index_of_unique(entry_terms(self.entries@), i as int);
                }
                Some(&self.entries[i].postings)
            },
            None => None,
        }
    }

    /// What the index records of `term` in document `path`, if anything.
    pub fn get(&self, term: &Term, path: &str) -> (found: Option<TermDocument>)
        requires
            self.wf(),
        ensures
            found == if recorded_under(self@, term@).contains_key(path@) {
                Some(self@[term@][path@])
            } else {
                None
            },
    {
        let owned = String::from_str(path);
        match self.postings(term) {
            Some(ps) => match find_doc(ps, &owned) {
                Some(j) => {
                    proof {
                        lemma_posting_at(ps@, j as int);
                    }
                    Some(ps[j].stats)
                },
                None => None,
            },
            None => None,
        }
    }

    /// Number of documents that contain `term`; none if the index has not
    /// seen the term.
    pub fn doc_freq(&self, term: &Term) -> (n: usize)
        requires
            self.wf(),
        ensures
            n == doc_freq_of(self@, term@),
            n <= num_docs_of(self@),
            n > 0 <==> self@.contains_key(term@),
    {
        proof {
            self.lemma_consistent();
            lemma_doc_freq_at_most_num_docs(self@, term@);
        }
        match self.postings(term) {
            Some(ps) => {
                proof {
                    lemma_postings_len(ps@);
                }
                ps.len()
            },
            None => {
                assert(recorded_under(self@, term@).dom() =~= Set::<Seq<char>>::empty());
                0
            },
        }
    }

    /// The documents of the index, each once, with their lengths, in the
    /// order in which the entries first name them.
    pub fn document_table(&self) -> (table: Vec<DocumentLength>)
        requires
            self.wf(),
        ensures
            table_docs(table@) == distinct(hits(*self, self.term_order())),
            table_docs(table@).no_duplicates(),
            table_docs(table@).to_set() == documents(self@),
            table.len() == num_docs_of(self@),
            forall|k: int|
                0 <= k < table.len() ==> (#[trigger] table[k]).length == document_length(
                    self@,
                    table[k].doc_path@,
                ),
    {
        let ghost m = self@;
        let ghost es = self.entries@;
        let ghost order = self.term_order();
        let mut table: Vec<DocumentLength> = Vec::new();
        let mut i: usize = 0;
        proof {
            assert(order.take(0) =~= Seq::<Seq<char>>::empty());
            assert(table_docs(table@) =~= Seq::<Seq<char>>::empty());
        }
        while i < self.entries.len()
            invariant
                0 <= i <= self.entries.len(),
                self.wf(),
                m == self@,
                es == self.entries@,
                order == entry_terms(es),
                order == self.term_order(),
                table_docs(table@) == distinct(hits(*self, order.take(i as int))),
                forall|k: int|
                    0 <= k < table.len() ==> (#[trigger] table[k]).length == document_length(
                        m,
                        table[k].doc_path@,
                    ),
            decreases self.entries.len() - i,
        {
            let postings = &self.entries[i].postings;
            let ghost ps = postings@;
            let ghost t = es[i as int].term@;
            let ghost walked = hits(*self, order.take(i as int));
            let mut j: usize = 0;
            proof {
                assert(order.take(i + 1).drop_last() =~= order.take(i as int));
                assert(order.take(i + 1).last() == t);
                lemma_entry_at(es, i as int);
                lemma_index_of_unique(entry_terms(es), i as int);
                assert(posting_docs(ps) == self.doc_order(t));
                assert(walked + posting_docs(ps).take(0) =~= walked);
            }
            while j < postings.len()
                invariant
                    0 <= j <= postings.len(),
                    ps == postings@,
                    lengths_agree(m),
                    m.contains_key(t),
                    m[t] == postings_map(ps),
                    posting_docs(ps).no_duplicates(),
                    table_docs(table@) == distinct(walked + posting_docs(ps).take(j as int)),
                    forall|k: int|
                        0 <= k < table.len() ==> (#[trigger] table[k]).length == document_length(
                            m,
                            table[k].doc_path@,
                        ),
                decreases postings.len() - j,
            {
                let ghost seen = walked + posting_docs(ps).take(j as int);
                let ghost d = ps[j as int].doc_path@;
                let ghost before = table_docs(table@);
                proof {
                    let next = walked + posting_docs(ps).take(j + 1);
                    assert(next.drop_last() =~= seen);
                    assert(next.last() == d);
                    lemma_posting_at(ps, j as int);
                    lemma_document_length(m, t, d);
                }
                if !table_contains(&table, &postings[j].doc_path) {
                    table.push(
                        DocumentLength {
                            doc_path: postings[j].doc_path.clone(),
                            length: postings[j].stats.length,
                        },
                    );
                    assert(table_docs(table@) =~= before.push(d));
                }
                j = j + 1;
            }
            proof {
                assert(posting_docs(ps).take(j as int) =~= posting_docs(ps));
            }
            i = i + 1;
        }
        proof {
            assert(order.take(i as int) =~= order);
            let found = hits(*self, order);
            lemma_distinct(found);
            lemma_hits_match(*self, order);
            self.lemma_orders(Seq::empty());
            lemma_all_documents_match(m);
            table_docs(table@).unique_seq_to_set();
        }
        table
    }

    /// Number of documents of the index.
    pub fn num_docs(&self) -> (n: usize)
        requires
            self.wf(),
        ensures
            n == num_docs_of(self@),
    {
        self.document_table().len()
    }

    /// The average document length as an exact quotient: the sum of the
    /// lengths of all documents, each counted once, and their number. There
    /// is none for an index without documents.
    pub fn avg_doc_length(&self) -> (mean: Option<MeanLength>)
        requires
            self.wf(),
        ensures
            mean is None <==> num_docs_of(self@) == 0,
            mean matches Some(v) ==> v.count == num_docs_of(self@) && v.count > 0 && v.total
                == total_length(self@),
    {
        let table = self.document_table();
        if table.len() == 0 {
            return None;
        }
        let mut total: u128 = 0;
        let mut k: usize = 0;
        while k < table.len()
            invariant
                0 <= k <= table.len(),
                total == table_total(table@, k as int),
                total <= k * usize::MAX,
            decreases table.len() - k,
        {
            assert((k + 1) * usize::MAX <= usize::MAX * usize::MAX) by (nonlinear_arith)
                requires
                    k + 1 <= usize::MAX,
            ;
            assert((k + 1) * usize::MAX == k * usize::MAX + usize::MAX) by (nonlinear_arith);
            total = total + table[k].length as u128;
            k = k + 1;
        }
        proof {
            lemma_table_total(self@, table@, table@.len() as int);
            assert(table_docs(table@).take(table@.len() as int) =~= table_docs(table@));
        }
        Some(MeanLength { total, count: table.len() })
    }

    /// What the index records of document `path`: one record for each term
    /// that the document contains, in the order of the index.
    pub fn document_records(&self, path: &str) -> (records: Vec<TermRecord>)
        requires
            self.wf(),
        ensures
            record_terms(records@) == terms_holding(self@, self.term_order(), path@),
            records_map(records@) == records_of(self@, path@),
            records_wf(records@),
            records.len() > 0 <==> documents(self@).contains(path@),
    {
        let owned = String::from_str(path);
        let ghost d = path@;
        let ghost m = self@;
        let ghost es = self.entries@;
        let ghost order = entry_terms(es);
        let ghost keep = |t: Seq<char>| recorded_under(m, t).contains_key(d);
        let mut records: Vec<TermRecord> = Vec::new();
        let mut i: usize = 0;
        proof {
            assert(order.take(0) =~= Seq::<Seq<char>>::empty());
            assert(record_terms(records@) =~= Seq::<Seq<char>>::empty());
            reveal(Seq::filter);
        }
        while i < self.entries.len()
            invariant
                0 <= i <= self.entries.len(),
                self.wf(),
                owned@ == d,
                m == self@,
                es == self.entries@,
                order == entry_terms(es),
                keep == |t: Seq<char>| recorded_under(m, t).contains_key(d),
                record_terms(records@) == order.take(i as int).filter(keep),
                forall|k: int|
                    0 <= k < records.len() ==> {
                        &&& m.contains_key((#[trigger] records[k]).term@)
                        &&& m[records[k].term@].contains_key(d)
                        &&& records[k].stats == m[records[k].term@][d]
                    },
            decreases self.entries.len() - i,
        {
            let ghost before = record_terms(records@);
            let ghost t = es[i as int].term@;
            proof {
                assert(order.take(i + 1) =~= order.take(i as int).push(t));
                order.take(i as int).lemma_filter_push(t, keep);
                lemma_entry_at(es, i as int);
            }
            match find_doc(&self.entries[i].postings, &owned) {
                Some(j) => {
                    proof {
                        lemma_posting_at(es[i as int].postings@, j as int);
                    }
                    records.push(
                        TermRecord {
                            term: Term(self.entries[i].term.0.clone()),
                            stats: self.entries[i].postings[j].stats,
                        },
                    );
                    assert(record_terms(records@) =~= before.push(t));
                },
                None => {},
            }
            i = i + 1;
        }
        proof {
            assert(order.take(i as int) =~= order);
            self.lemma_consistent();
            lemma_terms_holding(m, order, d);
            let keys = record_terms(records@);
            let lhs = records_map(records@);
            let rhs = records_of(m, d);
            assert forall|t: Seq<char>| lhs.contains_key(t) <==> rhs.contains_key(t) by {
                if rhs.contains_key(t) {
                    let at = lemma_entry_of(es, t);
                    assert(order[at] == t);
                }
            }
            assert forall|t: Seq<char>| lhs.contains_key(t) implies lhs[t] == rhs[t] by {
                let k = lemma_record_of(records@, t);
            }
            assert(lhs =~= rhs);
            assert forall|a: int, b: int|
                0 <= a < records.len() && 0 <= b < records.len() implies (
            #[trigger] records[a]).stats.length == (#[trigger] records[b]).stats.length by {
                lemma_document_length(m, records[a].term@, d);
                lemma_document_length(m, records[b].term@, d);
            }
            if records.len() > 0 {
                assert(m.contains_key(records[0].term@) && m[records[0].term@].contains_key(d));
            }
            if documents(m).contains(d) {
                let t = choose|t: Seq<char>| m.contains_key(t) && #[trigger] m[t].contains_key(d);
                assert(rhs.contains_key(t));
                let k = lemma_record_of(records@, t);
            }
        }
        records
    }
}

} // verus!
