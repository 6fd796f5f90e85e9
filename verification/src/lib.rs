//! A name generator: it learns symbol-transition statistics from training
//! text with a fixed-order sliding window, and samples new names from the
//! learned table by weighted random choice.
pub mod markov_chain;
pub mod name_generator;
pub mod name_scraper;
