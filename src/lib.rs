//! Log entry engine: segmentation of raw lines into entries, timestamp
//! extraction, chronological merge of many sources and a bounded-memory sort.
pub mod lexer;
pub mod matchers;
pub mod merge;
pub mod offset;
pub mod pattern;
pub mod rate;
pub mod sort;
pub mod sources;
pub mod text;
pub mod time;
pub mod uniq;
