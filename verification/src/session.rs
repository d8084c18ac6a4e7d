//! The decisions of a live session: what a change on disk does to the index,
//! and what a line of input asks for.

use crate::inverted_index::corpus::text_postings;
use crate::inverted_index::index::InvertedIndex;
use crate::inverted_index::model::{with_document, TermDocument};
use crate::text_transform::query::{distinct, Query};
use crate::text_transform::transform::{terms_of, Globals};
use vstd::prelude::*;

verus! {

/// A text without the white space at its two ends.
pub uninterp spec fn trimmed(text: Seq<char>) -> Seq<char>;

/// `str::trim` of std: the result is the text without leading and trailing
/// white space, which [`trimmed`] names.
pub assume_specification[ str::trim ](s: &str) -> (inner: &str)
    ensures
        inner@ == trimmed(s@),
;

/// What a file-system event reports of a path.
#[derive(Debug, Clone, Copy, PartialEq, Eq)]
pub enum ChangeKind {
    /// Only the metadata of the file changed.
    Metadata,
    /// Anything else: the file was created, written, renamed or removed.
    Content,
}

/// What a line of input asks for.
pub enum Command {
    /// End the session.
    Exit,
    /// Rank the documents for this query.
    Search(Query),
}

/// The mapping of the index after a change was reported of `path`, where
/// `content` is what could then be read there.
pub open spec fn after_change(
    m: Map<Seq<char>, Map<Seq<char>, TermDocument>>,
    kind: ChangeKind,
    path: Seq<char>,
    content: Option<Seq<char>>,
    stop: Seq<Seq<char>>,
    n: nat,
) -> Map<Seq<char>, Map<Seq<char>, TermDocument>> {
    match (kind, content) {
        (ChangeKind::Content, Some(text)) => with_document(m, path, text_postings(text, stop, n)),
        _ => m,
    }
}

/// Brings the index up to date with one change. A change of metadata alone
/// does not reach the index. Any other change records the document anew
/// from what could be read at the path; if nothing could be read, what the
/// index holds of the document stays.
pub fn on_change(
    index: &mut InvertedIndex,
    kind: ChangeKind,
    path: &str,
    content: Option<&str>,
    globals: &Globals,
)
    requires
        old(index).wf(),
        globals.wf(),
    ensures
        final(index).wf(),
        final(index)@ == after_change(
            old(index)@,
            kind,
            path@,
            match content {
                Some(text) => Some(text@),
                None => None,
            },
            globals.stop_texts(),
            globals.n_grams as nat,
        ),
{
    match kind {
        ChangeKind::Metadata => {},
        ChangeKind::Content => {
            index.update(path, content, globals);
        },
    }
}

/// Reads one line of input: the word `exit`, with or without white space
/// around it, ends the session; any other line is a query.
pub fn on_input(line: &str, globals: &Globals) -> (command: Command)
    requires
        globals.wf(),
    ensures
        command is Exit <==> trimmed(line@) == "exit"@,
        command matches Command::Search(query) ==> query.wf() && query.term_seq() == distinct(
            terms_of(line@, globals.stop_texts(), globals.n_grams as nat),
        ),
{
    let word = String::from_str(line.trim());
    if word == String::from_str("exit") {
        Command::Exit
    } else {
        Command::Search(Query::new(line, globals))
    }
}

} // verus!
