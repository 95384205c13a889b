//! A dictionary-based compression front end: it greedily discovers repeated
//! substrings of a byte corpus whose substitution most reduces an order-0
//! entropy estimate, and emits the dictionary together with a token stream
//! that covers the corpus with dictionary references and literal bytes.

pub mod builder;
pub mod counting;
pub mod entropy_ranking;
pub mod fast_log2;
pub mod match_finder;
pub mod parser;
pub mod splitting;
pub mod suffix_array;
