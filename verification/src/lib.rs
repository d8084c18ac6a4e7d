//! A document search engine's core: text normalisation, an inverted index
//! with incremental updates, and the selection and ordering of ranked results.

pub mod evaluation;
pub mod inverted_index;
pub mod ranking;
pub mod session;
pub mod text_transform;
