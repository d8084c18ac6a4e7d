//! Ranking: which documents answer a query, and in which order.

pub mod candidates;
pub mod order;
pub mod rank;

pub use candidates::{Candidate, TermMatch};
pub use rank::{RankingAlgo, Score, Scored};
