//! The inverted index: for each term, the documents that contain it.

pub mod corpus;
pub mod document;
pub mod index;
pub mod model;
pub mod stats;

pub use corpus::SourceFile;
pub use index::{DocumentLength, InvertedIndex, MeanLength};
pub use model::{term_texts, Posting, Term, TermDocument, TermEntry};
