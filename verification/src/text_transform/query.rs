//! Queries: the set of terms of a query text.

use crate::inverted_index::{term_texts, Term};
use crate::text_transform::transform::{joined, n_gram_transform, terms_of, Globals};
use vstd::prelude::*;

verus! {

/// The elements of `s` in the order of their first occurrence, each once.
pub open spec fn distinct(s: Seq<Seq<char>>) -> Seq<Seq<char>>
    decreases s.len(),
{
    if s.len() == 0 {
        s
    } else {
        let before = distinct(s.drop_last());
        if before.contains(s.last()) {
            before
        } else {
            before.push(s.last())
        }
    }
}

/// `distinct` keeps exactly the elements of `s`, and none of them twice.
pub proof fn lemma_distinct(s: Seq<Seq<char>>)
    ensures
        distinct(s).no_duplicates(),
        distinct(s).to_set() == s.to_set(),
        distinct(s).len() <= s.len(),
    decreases s.len(),
{
    if s.len() == 0 {
    } else {
        let init = s.drop_last();
        lemma_distinct(init);
        let before = distinct(init);
        assert(s =~= init.push(s.last()));
        init.lemma_push_to_set_commute(s.last());
        if before.contains(s.last()) {
            assert(before.to_set().contains(s.last()));
            assert(before.to_set().insert(s.last()) =~= before.to_set());
        } else {
            before.lemma_push_to_set_commute(s.last());
        }
    }
}

/// Whether `term` stands among `terms`.
pub fn contains_term(terms: &Vec<Term>, term: &Term) -> (found: bool)
    ensures
        found == term_texts(terms@).contains(term@),
{
    let mut i: usize = 0;
    while i < terms.len()
        invariant
            0 <= i <= terms.len(),
            forall|j: int| 0 <= j < i ==> term_texts(terms@)[j] != term@,
        decreases terms.len() - i,
    {
        if terms[i].0 == term.0 {
            assert(term_texts(terms@)[i as int] == term@);
            return true;
        }
        i = i + 1;
    }
    false
}

/// A query: the terms of a query text, each once. A token that the text
/// repeats counts once.
pub struct Query {
    terms: Vec<Term>,
}

impl View for Query {
    type V = Set<Seq<char>>;

    closed spec fn view(&self) -> Set<Seq<char>> {
        self.term_seq().to_set()
    }
}

impl Clone for Query {
    fn clone(&self) -> (copy: Self)
        ensures
            copy.term_seq() == self.term_seq(),
            copy@ == self@,
            copy.wf() == self.wf(),
    {
        let mut terms: Vec<Term> = Vec::new();
        let mut i: usize = 0;
        while i < self.terms.len()
            invariant
                0 <= i <= self.terms.len(),
                terms.len() == i,
                forall|k: int| 0 <= k < i ==> terms[k]@ == self.terms[k]@,
            decreases self.terms.len() - i,
        {
            terms.push(Term(self.terms[i].0.clone()));
            i = i + 1;
        }
        assert(term_texts(terms@) =~= term_texts(self.terms@));
        Query { terms }
    }
}

impl Query {
    /// The terms in the order in which the query text first names them.
    pub closed spec fn term_seq(&self) -> Seq<Seq<char>> {
        term_texts(self.terms@)
    }

    /// No term stands twice.
    pub closed spec fn wf(&self) -> bool {
        self.term_seq().no_duplicates()
    }

    /// The view is the set of the listed terms.
    pub proof fn lemma_view(&self)
        ensures
            self@ == self.term_seq().to_set(),
            self@.finite(),
            self.wf() ==> self@.len() == self.term_seq().len(),
    {
        vstd::seq_lib::seq_to_set_is_finite(self.term_seq());
        if self.wf() {
            self.term_seq().unique_seq_to_set();
        }
    }

    /// Normalises a query text with the configuration that the documents were
    /// indexed with.
    pub fn new(query: &str, globals: &Globals) -> (q: Self)
        requires
            globals.wf(),
        ensures
            q.wf(),
            q.term_seq() == distinct(terms_of(query@, globals.stop_texts(), globals.n_grams as nat)),
            q@ == terms_of(query@, globals.stop_texts(), globals.n_grams as nat).to_set(),
    {
        let all = n_gram_transform(query, globals);
        let q = Self::from_terms(all);
        proof {
            lemma_distinct(terms_of(query@, globals.stop_texts(), globals.n_grams as nat));
        }
        q
    }

    /// The query that asks for the given terms.
    pub fn from_terms(all: Vec<Term>) -> (q: Self)
        ensures
            q.wf(),
            q.term_seq() == distinct(term_texts(all@)),
            q@ == term_texts(all@).to_set(),
    {
        let mut terms: Vec<Term> = Vec::new();
        let mut i: usize = 0;
        assert(term_texts(all@).take(0) =~= Seq::<Seq<char>>::empty());
        assert(term_texts(terms@) =~= Seq::<Seq<char>>::empty());
        while i < all.len()
            invariant
                0 <= i <= all.len(),
                term_texts(terms@) == distinct(term_texts(all@).take(i as int)),
            decreases all.len() - i,
        {
            let ghost seen = term_texts(all@).take(i as int);
            let ghost before = term_texts(terms@);
            assert(term_texts(all@).take(i + 1).drop_last() =~= seen);
            assert(term_texts(all@).take(i + 1).last() == all[i as int]@);
            if !contains_term(&terms, &all[i]) {
                terms.push(Term(all[i].0.clone()));
                assert(terms@.last()@ == all[i as int]@);
                assert(term_texts(terms@) =~= before.push(all[i as int]@));
            }
            i = i + 1;
        }
        assert(term_texts(all@).take(i as int) =~= term_texts(all@));
        proof {
            lemma_distinct(term_texts(all@));
        }
        Query { terms }
    }

    /// The terms of the query.
    pub fn terms(&self) -> (terms: &Vec<Term>)
        ensures
            term_texts(terms@) == self.term_seq(),
    {
        &self.terms
    }

    /// Whether the query has no term.
    pub fn is_empty(&self) -> (empty: bool)
        ensures
            empty == (self.term_seq().len() == 0),
            empty == (self@ =~= Set::<Seq<char>>::empty()),
    {
        proof {
            if self.terms@.len() > 0 {
                assert(self.term_seq()[0] == self.terms@[0]@);
                assert(self.term_seq().contains(self.term_seq()[0]));
                assert(self@.contains(self.term_seq()[0]));
            }
        }
        self.terms.len() == 0
    }

    /// The terms as one line, with single spaces between.
    pub fn to_text(&self) -> (line: String)
        ensures
            line@ == joined(self.term_seq()),
    {
        let ghost all = self.term_seq();
        let mut line = String::new();
        let mut i: usize = 0;
        assert(all.take(0) =~= Seq::<Seq<char>>::empty());
        while i < self.terms.len()
            invariant
                0 <= i <= self.terms.len(),
                all == self.term_seq(),
                line@ == joined(all.take(i as int)),
            decreases self.terms.len() - i,
        {
            let ghost so_far = all.take(i as int);
            let ghost next = all.take(i + 1);
            assert(next.drop_last() =~= so_far);
            assert(next.last() == self.terms[i as int]@);
            if i > 0 {
                line.push(' ');
                assert(line@ =~= joined(so_far) + seq![' ']);
            }
            line.append(self.terms[i].0.as_str());
            i = i + 1;
        }
        assert(all.take(i as int) =~= all);
        line
    }
}

} // verus!
