//! What one document contributes to the index: its terms, each with the
//! number of its occurrences.

use crate::inverted_index::model::{term_texts, Term, TermDocument};
use crate::text_transform::query::{distinct, lemma_distinct};
use vstd::prelude::*;

verus! {

/// Number of places of `terms` at which `t` stands.
pub open spec fn occurrences(terms: Seq<Seq<char>>, t: Seq<char>) -> nat
    decreases terms.len(),
{
    if terms.len() == 0 {
        0
    } else {
        occurrences(terms.drop_last(), t) + if terms.last() == t {
            1nat
        } else {
            0nat
        }
    }
}

/// A term occurs at most as often as there are places, and at least once
/// exactly if the sequence contains it.
pub proof fn lemma_occurrences(terms: Seq<Seq<char>>, t: Seq<char>)
    ensures
        occurrences(terms, t) <= terms.len(),
        terms.contains(t) <==> occurrences(terms, t) >= 1,
    decreases terms.len(),
{
    if terms.len() > 0 {
        let init = terms.drop_last();
        lemma_occurrences(init, t);
        if terms.last() == t {
            assert(terms[terms.len() - 1] == t);
        } else if terms.contains(t) {
            let i = terms.index_of(t);
            assert(init[i] == t);
        }
        if init.contains(t) {
            let i = init.index_of(t);
            assert(terms[i] == t);
        }
    }
}

/// The records of a document with the given terms and length: one for each
/// term that it contains, with the number of its occurrences.
pub open spec fn document_postings(terms: Seq<Seq<char>>, length: usize) -> Map<
    Seq<char>,
    TermDocument,
> {
    Map::new(
        |t: Seq<char>| terms.contains(t),
        |t: Seq<char>| TermDocument { length, term_freq: occurrences(terms, t) as usize },
    )
}

/// What a document records under one of its terms.
pub struct TermRecord {
    pub term: Term,
    pub stats: TermDocument,
}

/// The terms of a list of records, in its order.
pub open spec fn record_terms(records: Seq<TermRecord>) -> Seq<Seq<char>> {
    Seq::new(records.len(), |i: int| records[i].term@)
}

/// A list of records as a mapping from term to statistics.
pub open spec fn records_map(records: Seq<TermRecord>) -> Map<Seq<char>, TermDocument> {
    Map::new(
        |t: Seq<char>| record_terms(records).contains(t),
        |t: Seq<char>| records[record_terms(records).index_of(t)].stats,
    )
}

/// The records of one document: each term once, each frequency at least
/// one, and one length throughout.
pub open spec fn records_wf(records: Seq<TermRecord>) -> bool {
    &&& record_terms(records).no_duplicates()
    &&& forall|i: int| 0 <= i < records.len() ==> (#[trigger] records[i]).stats.term_freq >= 1
    &&& forall|i: int, j: int|
        0 <= i < records.len() && 0 <= j < records.len() ==> (#[trigger] records[i]).stats.length
            == (#[trigger] records[j]).stats.length
}

/// What a list of records holds of the term at place `i`.
pub proof fn lemma_record_at(records: Seq<TermRecord>, i: int)
    requires
        record_terms(records).no_duplicates(),
        0 <= i < records.len(),
    ensures
        records_map(records).contains_key(records[i].term@),
        records_map(records)[records[i].term@] == records[i].stats,
{
    let keys = record_terms(records);
    assert(keys[i] == records[i].term@);
    assert(keys.contains(keys[i]));
    let j = keys.index_of(keys[i]);
    assert(keys[j] == keys[i]);
}

/// A term of the mapping of a list of records stands at some place of it.
pub proof fn lemma_record_of(records: Seq<TermRecord>, t: Seq<char>) -> (i: int)
    requires
        records_map(records).contains_key(t),
    ensures
        0 <= i < records.len(),
        records[i].term@ == t,
        records_map(records)[t] == records[i].stats,
{
    let keys = record_terms(records);
    let i = keys.index_of(t);
    assert(keys.contains(t));
    assert(keys[i] == t);
    i
}

/// The first `k + 1` records hold one key more than the first `k`.
pub proof fn lemma_records_take(records: Seq<TermRecord>, k: int)
    requires
        record_terms(records).no_duplicates(),
        0 <= k < records.len(),
    ensures
        !records_map(records.take(k)).contains_key(records[k].term@),
        records_map(records.take(k + 1)) == records_map(records.take(k)).insert(
            records[k].term@,
            records[k].stats,
        ),
{
    let keys = record_terms(records);
    let fewer = records.take(k);
    let more = records.take(k + 1);
    let t = records[k].term@;
    assert(keys[k] == t);
    assert(!records_map(fewer).contains_key(t)) by {
        if records_map(fewer).contains_key(t) {
            let i = lemma_record_of(fewer, t);
            assert(keys[i] == keys[k]);
        }
    }
    assert(record_terms(more).no_duplicates()) by {
        assert forall|i: int, j: int|
            0 <= i < more.len() && 0 <= j < more.len() && i != j implies record_terms(more)[i]
            != record_terms(more)[j] by {
            assert(keys[i] != keys[j]);
        }
    }
    let lhs = records_map(more);
    let rhs = records_map(fewer).insert(t, records[k].stats);
    assert forall|x: Seq<char>| lhs.contains_key(x) <==> rhs.contains_key(x) by {
        if lhs.contains_key(x) {
            let i = lemma_record_of(more, x);
            if i < k {
                assert(record_terms(fewer)[i] == x);
            }
        }
        if rhs.contains_key(x) {
            if x == t {
                assert(record_terms(more)[k] == x);
            } else {
                let i = lemma_record_of(fewer, x);
                assert(record_terms(more)[i] == x);
            }
        }
    }
    assert forall|x: Seq<char>| lhs.contains_key(x) implies lhs[x] == rhs[x] by {
        let i = lemma_record_of(more, x);
        if i < k {
            assert(record_terms(fewer)[i] == x);
            assert(record_terms(fewer).no_duplicates()) by {
                assert forall|a: int, b: int|
                    0 <= a < fewer.len() && 0 <= b < fewer.len() && a != b implies record_terms(
                    fewer,
                )[a] != record_terms(fewer)[b] by {
                    assert(keys[a] != keys[b]);
                }
            }
            lemma_record_at(fewer, i);
        } else {
            assert(keys[i] == x);
        }
    }
    assert(lhs =~= rhs);
}

/// Counts the places of `terms` at which `term` stands.
pub fn count_occurrences(terms: &Vec<Term>, term: &Term) -> (n: usize)
    ensures
        n == occurrences(term_texts(terms@), term@),
{
    let ghost all = term_texts(terms@);
    let mut n: usize = 0;
    let mut i: usize = 0;
    assert(all.take(0) =~= Seq::<Seq<char>>::empty());
    while i < terms.len()
        invariant
            0 <= i <= terms.len(),
            all == term_texts(terms@),
            n == occurrences(all.take(i as int), term@),
            n <= i,
        decreases terms.len() - i,
    {
        assert(all.take(i + 1).drop_last() =~= all.take(i as int));
        assert(all.take(i + 1).last() == terms[i as int]@);
        if terms[i].0 == term.0 {
            n = n + 1;
        }
        i = i + 1;
    }
    assert(all.take(i as int) =~= all);
    n
}

/// Whether one of the records stands under `term`.
pub fn has_record(records: &Vec<TermRecord>, term: &Term) -> (found: bool)
    ensures
        found == record_terms(records@).contains(term@),
{
    let mut i: usize = 0;
    while i < records.len()
        invariant
            0 <= i <= records.len(),
            forall|k: int| 0 <= k < i ==> record_terms(records@)[k] != term@,
        decreases records.len() - i,
    {
        if records[i].term.0 == term.0 {
            assert(record_terms(records@)[i as int] == term@);
            return true;
        }
        i = i + 1;
    }
    false
}

/// The records of a document with the given terms and length: its distinct
/// terms in the order of their first occurrence, each with the number of its
/// occurrences.
pub fn count_terms(terms: &Vec<Term>, length: usize) -> (records: Vec<TermRecord>)
    ensures
        record_terms(records@) == distinct(term_texts(terms@)),
        records_wf(records@),
        records_map(records@) == document_postings(term_texts(terms@), length),
{
    let ghost all = term_texts(terms@);
    let mut records: Vec<TermRecord> = Vec::new();
    let mut i: usize = 0;
    assert(all.take(0) =~= Seq::<Seq<char>>::empty());
    assert(record_terms(records@) =~= Seq::<Seq<char>>::empty());
    while i < terms.len()
        invariant
            0 <= i <= terms.len(),
            all == term_texts(terms@),
            record_terms(records@) == distinct(all.take(i as int)),
            forall|k: int|
                0 <= k < records.len() ==> (#[trigger] records[k]).stats == (TermDocument {
                    length,
                    term_freq: occurrences(all, records[k].term@) as usize,
                }),
            forall|k: int| 0 <= k < records.len() ==> (#[trigger] records[k]).stats.term_freq >= 1,
        decreases terms.len() - i,
    {
        let ghost before = record_terms(records@);
        assert(all.take(i + 1).drop_last() =~= all.take(i as int));
        assert(all.take(i + 1).last() == terms[i as int]@);
        if !has_record(&records, &terms[i]) {
            let term_freq = count_occurrences(terms, &terms[i]);
            proof {
                lemma_occurrences(all, terms[i as int]@);
                assert(all[i as int] == terms[i as int]@);
            }
            records.push(
                TermRecord {
                    term: Term(terms[i].0.clone()),
                    stats: TermDocument { length, term_freq },
                },
            );
            assert(record_terms(records@) =~= before.push(terms[i as int]@));
        }
        i = i + 1;
    }
    proof {
        assert(all.take(i as int) =~= all);
        lemma_distinct(all);
        let keys = record_terms(records@);
        let lhs = records_map(records@);
        let rhs = document_postings(all, length);
        assert forall|t: Seq<char>| lhs.contains_key(t) <==> rhs.contains_key(t) by {
            assert(keys.to_set().contains(t) <==> all.to_set().contains(t));
        }
        assert forall|t: Seq<char>| lhs.contains_key(t) implies lhs[t] == rhs[t] by {
            let k = lemma_record_of(records@, t);
        }
        assert(lhs =~= rhs);
    }
    records
}

} // verus!
