//! Turning raw text into comparable terms.

pub mod query;
pub mod tokens;
pub mod transform;

pub use query::Query;
pub use transform::{n_gram_transform, Globals};
