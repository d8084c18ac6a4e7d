//! Case folding and splitting of raw text into words.

use vstd::prelude::*;
use vstd::std_specs::iter::IteratorSpec;

verus! {

/// Whether a character is a letter or a digit in the sense of Unicode.
pub uninterp spec fn alphanumeric(c: char) -> bool;

/// The lower-case form of a text.
pub uninterp spec fn lowercased(text: Seq<char>) -> Seq<char>;

/// `char::is_alphanumeric` of std: the answer is the Unicode property that
/// [`alphanumeric`] names, and depends on the character alone.
pub assume_specification[ char::is_alphanumeric ](c: char) -> (b: bool)
    ensures
        b == alphanumeric(c),
;

/// `str::to_lowercase` of std: the result is the Unicode lower-case mapping of
/// the whole text, which [`lowercased`] names.
pub assume_specification[ str::to_lowercase ](s: &str) -> (lower: String)
    ensures
        lower@ == lowercased(s@),
;

/// `String::push` of std appends one character at the end.
pub assume_specification[ String::push ](s: &mut String, c: char)
    ensures
        final(s)@ == old(s)@.push(c),
;

/// The texts that a sequence of strings holds, in the same order.
pub open spec fn texts(strings: Seq<String>) -> Seq<Seq<char>> {
    Seq::new(strings.len(), |i: int| strings[i]@)
}

/// Whether every character of `s` is a letter or a digit.
pub open spec fn all_alphanumeric(s: Seq<char>) -> bool {
    forall|i: int| 0 <= i < s.len() ==> alphanumeric(#[trigger] s[i])
}

/// Length of the longest prefix of `s` made of letters and digits only.
pub open spec fn word_prefix_len(s: Seq<char>) -> nat
    decreases s.len(),
{
    if s.len() > 0 && alphanumeric(s[0]) {
        1 + word_prefix_len(s.drop_first())
    } else {
        0
    }
}

/// The words of `s`: its maximal runs of letters and digits, from left to
/// right. Whatever stands between two words is dropped.
pub open spec fn words(s: Seq<char>) -> Seq<Seq<char>>
    decreases s.len(),
{
    if s.len() == 0 {
        Seq::empty()
    } else if !alphanumeric(s[0]) {
        words(s.drop_first())
    } else {
        let k = word_prefix_len(s) as int;
        if 0 < k <= s.len() {
            seq![s.take(k)] + words(s.skip(k))
        } else {
            Seq::empty()
        }
    }
}

/// A run of letters and digits that ends where `rest` begins is the whole
/// word prefix of the two put together.
pub proof fn lemma_word_prefix_of_run(run: Seq<char>, rest: Seq<char>)
    requires
        all_alphanumeric(run),
        rest.len() == 0 || !alphanumeric(rest[0]),
    ensures
        word_prefix_len(run + rest) == run.len(),
    decreases run.len(),
{
    let s = run + rest;
    if run.len() == 0 {
        assert(s =~= rest);
    } else {
        assert(s[0] == run[0]);
        assert(s.drop_first() =~= run.drop_first() + rest);
        lemma_word_prefix_of_run(run.drop_first(), rest);
    }
}

/// A non-empty run of letters and digits before a boundary is the first
/// word; the words of what follows come after it.
pub proof fn lemma_words_after_run(run: Seq<char>, rest: Seq<char>)
    requires
        run.len() > 0,
        all_alphanumeric(run),
        rest.len() == 0 || !alphanumeric(rest[0]),
    ensures
        words(run + rest) == seq![run] + words(rest),
{
    let s = run + rest;
    lemma_word_prefix_of_run(run, rest);
    assert(s[0] == run[0]);
    assert(s.take(run.len() as int) =~= run);
    assert(s.skip(run.len() as int) =~= rest);
}

/// Every word is a non-empty run of letters and digits.
pub proof fn lemma_words_are_alphanumeric(s: Seq<char>)
    ensures
        forall|i: int|
            0 <= i < words(s).len() ==> (#[trigger] words(s)[i]).len() > 0 && all_alphanumeric(
                words(s)[i],
            ),
    decreases s.len(),
{
    if s.len() == 0 {
    } else if !alphanumeric(s[0]) {
        lemma_words_are_alphanumeric(s.drop_first());
        assert(words(s) == words(s.drop_first()));
    } else {
        let k = word_prefix_len(s) as int;
        lemma_word_prefix_is_run(s);
        lemma_words_are_alphanumeric(s.skip(k));
        let first = s.take(k);
        let later = words(s.skip(k));
        assert(words(s) == seq![first] + later);
        assert forall|i: int| 0 <= i < words(s).len() implies (#[trigger] words(s)[i]).len() > 0
            && all_alphanumeric(words(s)[i]) by {
            if i == 0 {
                assert(words(s)[0] == first);
            } else {
                assert(words(s)[i] == later[i - 1]);
            }
        }
    }
}

/// The word prefix fits in the text and holds letters and digits only.
pub proof fn lemma_word_prefix_is_run(s: Seq<char>)
    ensures
        word_prefix_len(s) <= s.len(),
        all_alphanumeric(s.take(word_prefix_len(s) as int)),
        s.len() > 0 && alphanumeric(s[0]) ==> word_prefix_len(s) > 0,
    decreases s.len(),
{
    if s.len() > 0 && alphanumeric(s[0]) {
        let t = s.drop_first();
        lemma_word_prefix_is_run(t);
        let k = word_prefix_len(s) as int;
        let run = s.take(k);
        assert forall|i: int| 0 <= i < run.len() implies alphanumeric(#[trigger] run[i]) by {
            if i > 0 {
                assert(run[i] == t.take(k - 1)[i - 1]);
            }
        }
    }
}

/// Splits a text into its words.
pub fn split_words(text: &str) -> (out: Vec<String>)
    ensures
        texts(out@) == words(text@),
{
    let mut it = text.chars();
    let mut out: Vec<String> = Vec::new();
    let mut cur = String::new();
    let ghost mut i: int = 0;
    assert(texts(out@) =~= Seq::<Seq<char>>::empty());
    assert(cur@ + text@.skip(0) =~= text@);
    loop
        invariant
            0 <= i <= text@.len(),
            it.remaining() == text@.skip(i),
            all_alphanumeric(cur@),
            words(text@) == texts(out@) + words(cur@ + text@.skip(i)),
        ensures
            i == text@.len(),
        decreases text@.len() - i,
    {
        let ghost rest = text@.skip(i);
        let ghost done = texts(out@);
        let ghost run = cur@;
        match it.next() {
            Some(c) => {
                assert(c == rest[0]);
                assert(rest.drop_first() =~= text@.skip(i + 1));
                if c.is_alphanumeric() {
                    cur.push(c);
                    assert(cur@ + text@.skip(i + 1) =~= run + rest);
                } else {
                    if !cur.as_str().is_empty() {
                        proof {
                            lemma_words_after_run(cur@, rest);
                        }
                        out.push(cur);
                        cur = String::new();
                        assert(texts(out@) =~= done.push(out@.last()@));
                        assert(done.push(out@.last()@) + words(rest) =~= done + (seq![
                            out@.last()@,
                        ] + words(rest)));
                    } else {
                        assert(cur@ + rest =~= rest);
                    }
                    assert(cur@ + text@.skip(i + 1) =~= rest.drop_first());
                }
                proof {
                    i = i + 1;
                }
            },
            None => {
                assert(rest.len() == 0);
                break ;
            },
        }
    }
    if !cur.as_str().is_empty() {
        proof {
            lemma_words_after_run(cur@, text@.skip(i));
        }
        let ghost done = texts(out@);
        out.push(cur);
        assert(texts(out@) =~= done.push(out@.last()@));
        assert(done.push(out@.last()@) + words(text@.skip(i)) =~= done + (seq![out@.last()@]
            + words(text@.skip(i))));
        assert(texts(out@) + words(text@.skip(i)) =~= texts(out@));
    } else {
        assert(cur@ + text@.skip(i) =~= Seq::<char>::empty());
    }
    out
}

/// Folds a text to lower case and splits it into its words.
pub fn tokenize(content: &str) -> (out: Vec<String>)
    ensures
        texts(out@) == words(lowercased(content@)),
{
    let lower = content.to_lowercase();
    split_words(lower.as_str())
}

} // verus!
