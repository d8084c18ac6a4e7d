//! The steps of normalisation: words, stop-word removal, stemming, n-grams.

use crate::inverted_index::{term_texts, Term};
use crate::text_transform::tokens::{
    all_alphanumeric, lemma_words_are_alphanumeric, lowercased, texts, tokenize, words,
};
use vstd::prelude::*;

verus! {

/// The configuration that documents and queries are normalised with.
pub struct Globals {
    /// Width of the window that slides over the stemmed tokens.
    pub n_grams: usize,
    /// Words that are dropped before stemming.
    pub stop_words: Vec<String>,
}

/// The stem that the English Snowball algorithm gives a word.
pub uninterp spec fn english_stem(word: Seq<char>) -> Seq<char>;

/// `Stemmer::stem` of rust_stemmers, on a stemmer made by `Stemmer::create`
/// for `Algorithm::English`: the result is computed from the word alone, and
/// [`english_stem`] names it.
#[verifier::external_body]
fn stem_word(word: &str) -> (stem: String)
    ensures
        stem@ == english_stem(word@),
{
    rust_stemmers::Stemmer::create(rust_stemmers::Algorithm::English).stem(word).into_owned()
}

/// The words that are left when those of `stop` are dropped.
pub open spec fn without_stop_words(ws: Seq<Seq<char>>, stop: Seq<Seq<char>>) -> Seq<Seq<char>> {
    ws.filter(|w: Seq<char>| !stop.contains(w))
}

/// The stem of each word, in the same order.
pub open spec fn stems(ws: Seq<Seq<char>>) -> Seq<Seq<char>> {
    ws.map_values(|w: Seq<char>| english_stem(w))
}

/// The tokens of a text: its lower-case words without the stop words, each
/// reduced to its stem.
pub open spec fn stemmed_tokens(text: Seq<char>, stop: Seq<Seq<char>>) -> Seq<Seq<char>> {
    stems(without_stop_words(words(lowercased(text)), stop))
}

/// The tokens put one after another with a single space between two.
pub open spec fn joined(tokens: Seq<Seq<char>>) -> Seq<char>
    decreases tokens.len(),
{
    if tokens.len() == 0 {
        Seq::empty()
    } else if tokens.len() == 1 {
        tokens[0]
    } else {
        joined(tokens.drop_last()) + seq![' '] + tokens.last()
    }
}

/// Number of windows of width `n` over `tokens` tokens.
pub open spec fn n_gram_count(tokens: nat, n: nat) -> nat {
    if tokens >= n {
        (tokens - n + 1) as nat
    } else {
        0
    }
}

/// The n-grams of a token sequence: one term for each window of `n`
/// consecutive tokens, from left to right.
pub open spec fn n_grams(tokens: Seq<Seq<char>>, n: nat) -> Seq<Seq<char>> {
    Seq::new(n_gram_count(tokens.len(), n), |i: int| joined(tokens.subrange(i, i + n)))
}

/// The terms of a text under a configuration.
pub open spec fn terms_of(text: Seq<char>, stop: Seq<Seq<char>>, n: nat) -> Seq<Seq<char>> {
    n_grams(stemmed_tokens(text, stop), n)
}

/// The number of terms is the number of windows that fit: as many as there
/// are tokens, less `n`, plus one; none where there are fewer than `n` tokens.
pub proof fn lemma_term_count(text: Seq<char>, stop: Seq<Seq<char>>, n: nat)
    ensures
        terms_of(text, stop, n).len() == n_gram_count(stemmed_tokens(text, stop).len(), n),
        stemmed_tokens(text, stop).len() < n ==> terms_of(text, stop, n).len() == 0,
{
}

/// No stop word is stemmed: every word that is kept is a word of the
/// lower-case text, not empty, made of letters and digits only, and no stop
/// word.
pub proof fn lemma_kept_words(text: Seq<char>, stop: Seq<Seq<char>>)
    ensures
        forall|i: int|
            0 <= i < without_stop_words(words(lowercased(text)), stop).len() ==> {
                let w = #[trigger] without_stop_words(words(lowercased(text)), stop)[i];
                &&& !stop.contains(w)
                &&& words(lowercased(text)).contains(w)
                &&& w.len() > 0
                &&& all_alphanumeric(w)
            },
{
    let all = words(lowercased(text));
    let keep = |w: Seq<char>| !stop.contains(w);
    let kept = all.filter(keep);
    lemma_words_are_alphanumeric(lowercased(text));
    assert forall|i: int| 0 <= i < kept.len() implies {
        let w = #[trigger] kept[i];
        &&& !stop.contains(w)
        &&& all.contains(w)
        &&& w.len() > 0
        &&& all_alphanumeric(w)
    } by {
        let w = kept[i];
        all.lemma_filter_pred(keep, i);
        assert(kept.contains(w));
        all.lemma_filter_contains_rev(keep, w);
        let at = all.index_of(w);
        assert(all[at] == w);
    }
}

/// With a window of one token the terms are the stemmed tokens: each term
/// is the stem of a word that is no stop word.
pub proof fn lemma_single_tokens(text: Seq<char>, stop: Seq<Seq<char>>)
    ensures
        terms_of(text, stop, 1) == stemmed_tokens(text, stop),
        forall|i: int|
            0 <= i < terms_of(text, stop, 1).len() ==> {
                let w = without_stop_words(words(lowercased(text)), stop)[i];
                &&& #[trigger] terms_of(text, stop, 1)[i] == english_stem(w)
                &&& !stop.contains(w)
            },
{
    let tokens = stemmed_tokens(text, stop);
    assert forall|i: int| 0 <= i < tokens.len() implies joined(tokens.subrange(i, i + 1))
        == tokens[i] by {
        assert(tokens.subrange(i, i + 1)[0] == tokens[i]);
    }
    assert(terms_of(text, stop, 1) =~= tokens);
    lemma_kept_words(text, stop);
}

/// Whether a term is made of words with single spaces between them: it is
/// not empty, neither begins nor ends with a space, and holds no two spaces
/// in a row.
pub open spec fn single_spaced(term: Seq<char>) -> bool {
    &&& term.len() > 0
    &&& term[0] != ' '
    &&& term.last() != ' '
    &&& forall|i: int| 0 <= i < term.len() - 1 ==> !(#[trigger] term[i] == ' ' && term[i + 1] == ' ')
}

/// Whether `c` is a character of one of the tokens.
pub open spec fn token_char(tokens: Seq<Seq<char>>, c: char) -> bool {
    exists|k: int, j: int| 0 <= k < tokens.len() && 0 <= j < tokens[k].len() && tokens[k][j] == c
}

/// Tokens that are not empty and hold no space are joined by single spaces:
/// the term is single-spaced, and each of its characters is a space or a
/// character of a token.
pub proof fn lemma_joined_spacing(tokens: Seq<Seq<char>>)
    requires
        tokens.len() > 0,
        forall|k: int|
            0 <= k < tokens.len() ==> (#[trigger] tokens[k]).len() > 0 && !tokens[k].contains(' '),
    ensures
        single_spaced(joined(tokens)),
        forall|i: int|
            0 <= i < joined(tokens).len() ==> (#[trigger] joined(tokens)[i]) == ' ' || token_char(
                tokens,
                joined(tokens)[i],
            ),
    decreases tokens.len(),
{
    let term = joined(tokens);
    let last = tokens.last();
    assert forall|j: int| 0 <= j < last.len() implies #[trigger] last[j] != ' ' by {
        if last[j] == ' ' {
            assert(last.contains(' '));
        }
    }
    if tokens.len() == 1 {
        assert(term == tokens[0]);
        assert forall|i: int| 0 <= i < term.len() implies token_char(tokens, #[trigger] term[i]) by {
            assert(tokens[0][i] == term[i]);
        }
    } else {
        let init = tokens.drop_last();
        let head = joined(init);
        assert forall|k: int| 0 <= k < init.len() implies (#[trigger] init[k]).len() > 0
            && !init[k].contains(' ') by {
            assert(init[k] == tokens[k]);
        }
        lemma_joined_spacing(init);
        assert(term == head + seq![' '] + last);
        assert forall|i: int| 0 <= i < term.len() - 1 implies !(#[trigger] term[i] == ' ' && term[i
            + 1] == ' ') by {
            if i + 1 < head.len() {
                assert(term[i] == head[i] && term[i + 1] == head[i + 1]);
            } else if i + 1 == head.len() {
                assert(term[i] == head.last());
            } else {
                assert(term[i + 1] == last[i - head.len()]);
            }
        }
        assert(term[0] == head[0]);
        assert(term.last() == last.last());
        assert forall|i: int| 0 <= i < term.len() implies (#[trigger] term[i]) == ' ' || token_char(
            tokens,
            term[i],
        ) by {
            if i < head.len() {
                assert(term[i] == head[i]);
                if head[i] != ' ' {
                    let (k, j) = choose|k: int, j: int|
                        0 <= k < init.len() && 0 <= j < init[k].len() && init[k][j] == head[i];
                    assert(tokens[k][j] == term[i]);
                }
            } else if i > head.len() {
                assert(tokens[tokens.len() - 1][i - head.len() - 1] == term[i]);
            }
        }
    }
}

impl Globals {
    /// The stop words as texts.
    pub open spec fn stop_texts(&self) -> Seq<Seq<char>> {
        texts(self.stop_words@)
    }

    /// Whether the configuration can be used: a window holds at least one token.
    pub open spec fn wf(&self) -> bool {
        self.n_grams >= 1
    }

    /// Whether `word` is one of the stop words.
    pub fn is_stop_word(&self, word: &String) -> (found: bool)
        ensures
            found == self.stop_texts().contains(word@),
    {
        let mut i: usize = 0;
        while i < self.stop_words.len()
            invariant
                0 <= i <= self.stop_words.len(),
                forall|j: int| 0 <= j < i ==> self.stop_texts()[j] != word@,
            decreases self.stop_words.len() - i,
        {
            if self.stop_words[i] == *word {
                assert(self.stop_texts()[i as int] == word@);
                return true;
            }
            i = i + 1;
        }
        false
    }
}

/// Steps one to four of normalisation: the stemmed tokens of a text.
pub fn stem_tokens(content: &str, globals: &Globals) -> (out: Vec<String>)
    ensures
        texts(out@) == stemmed_tokens(content@, globals.stop_texts()),
{
    let tokens = tokenize(content);
    let ghost stop = globals.stop_texts();
    let ghost keep = |w: Seq<char>| !stop.contains(w);
    let ghost stem = |w: Seq<char>| english_stem(w);
    let mut out: Vec<String> = Vec::new();
    let mut i: usize = 0;
    assert(texts(tokens@).take(0) =~= Seq::<Seq<char>>::empty());
    assert(texts(out@) =~= Seq::<Seq<char>>::empty());
    proof {
        reveal(Seq::filter);
    }
    while i < tokens.len()
        invariant
            0 <= i <= tokens.len(),
            stop == globals.stop_texts(),
            keep == |w: Seq<char>| !stop.contains(w),
            stem == |w: Seq<char>| english_stem(w),
            texts(out@) == texts(tokens@).take(i as int).filter(keep).map_values(stem),
        decreases tokens.len() - i,
    {
        let ghost seen = texts(tokens@).take(i as int);
        let ghost before = texts(out@);
        assert(texts(tokens@).take(i + 1) =~= seen.push(tokens[i as int]@));
        proof {
            seen.lemma_filter_push(tokens[i as int]@, keep);
        }
        if !globals.is_stop_word(&tokens[i]) {
            let stemmed = stem_word(tokens[i].as_str());
            out.push(stemmed);
            assert(texts(out@) =~= before.push(english_stem(tokens[i as int]@)));
            assert(seen.filter(keep).push(tokens[i as int]@).map_values(stem) =~= before.push(
                stem(tokens[i as int]@),
            ));
        }
        i = i + 1;
    }
    assert(texts(tokens@).take(i as int) =~= texts(tokens@));
    out
}

/// One window of tokens as a single string, with single spaces between.
fn join_window(tokens: &Vec<String>, start: usize, n: usize) -> (out: String)
    requires
        start + n <= tokens.len(),
    ensures
        out@ == joined(texts(tokens@).subrange(start as int, start + n)),
{
    let ghost window = texts(tokens@).subrange(start as int, start + n);
    let mut out = String::new();
    let mut j: usize = 0;
    assert(window.take(0) =~= Seq::<Seq<char>>::empty());
    while j < n
        invariant
            0 <= j <= n,
            start + n <= tokens.len(),
            window == texts(tokens@).subrange(start as int, start + n),
            out@ == joined(window.take(j as int)),
        decreases n - j,
    {
        let ghost so_far = window.take(j as int);
        let ghost next = window.take(j + 1);
        assert(next.drop_last() =~= so_far);
        assert(next.last() == tokens[start + j]@);
        if j > 0 {
            out.push(' ');
            assert(out@ =~= joined(so_far) + seq![' ']);
        }
        out.append(tokens[start + j].as_str());
        j = j + 1;
    }
    assert(window.take(n as int) =~= window);
    out
}

/// Step five of normalisation: slides a window of `n` tokens over the
/// sequence and joins each window into one term.
pub fn n_gram_terms(tokens: &Vec<String>, n: usize) -> (out: Vec<Term>)
    requires
        n >= 1,
    ensures
        term_texts(out@) == n_grams(texts(tokens@), n as nat),
        out@.len() == n_gram_count(tokens@.len(), n as nat),
{
    let mut out: Vec<Term> = Vec::new();
    if tokens.len() < n {
        assert(term_texts(out@) =~= n_grams(texts(tokens@), n as nat));
        return out;
    }
    let count = tokens.len() - n + 1;
    let mut i: usize = 0;
    while i < count
        invariant
            0 <= i <= count,
            n >= 1,
            count == tokens.len() - n + 1,
            out@.len() == i,
            forall|k: int|
                0 <= k < i ==> (#[trigger] out@[k])@ == joined(texts(tokens@).subrange(k, k + n)),
        decreases count - i,
    {
        let term = Term(join_window(tokens, i, n));
        out.push(term);
        i = i + 1;
    }
    assert(term_texts(out@) =~= n_grams(texts(tokens@), n as nat));
    out
}

/// Normalises a text into its terms: lower case, split into words, stop
/// words dropped, each word stemmed, and a window of `globals.n_grams` tokens
/// slid over the result.
pub fn n_gram_transform(content: &str, globals: &Globals) -> (out: Vec<Term>)
    requires
        globals.wf(),
    ensures
        term_texts(out@) == terms_of(content@, globals.stop_texts(), globals.n_grams as nat),
{
    let tokens = stem_tokens(content, globals);
    n_gram_terms(&tokens, globals.n_grams)
}

} // verus!
