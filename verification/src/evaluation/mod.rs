//! Labelled queries for judging a ranking against known answers.

pub mod evaluation_data;
pub mod ranking_evaluation;

pub use evaluation_data::{EvaluationData, EvaluationError, Example, Relevance, ResultData};
pub use ranking_evaluation::{Judgement, TestQuery, TestSet};
