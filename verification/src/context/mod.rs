//! Fitting what is shown of a file into a budget of tokens.

pub mod file_summarizer;
pub mod relevance_scorer;
pub mod scoring;
pub mod token_estimator;
