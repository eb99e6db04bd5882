//! A verified character-reference store for logographic scripts.
//!
//! The crate keeps one record per character, merges three independently
//! sourced datasets into those records (a tabular level table, a
//! line-delimited structured dictionary, and a flat metadata map), and
//! answers point and structural-decomposition queries. A decomposition
//! parser turns an Ideographic-Description-Sequence string into the
//! ordered list of its atomic component characters.

pub mod laws;
pub mod parser;
pub mod pipeline;
pub mod query;
pub mod record;
pub mod source;
pub mod store;
