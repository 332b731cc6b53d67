//! Candidate extraction for a utility-class build tool: finds every token in
//! arbitrary source text that could name a utility class, and merges the
//! tokens of many buffers into one sorted, duplicate-free list whatever the
//! chosen concurrency.
pub mod content;
pub mod merge;
pub mod order;
pub mod scanner;
pub mod strategy;

pub use content::{ChangedContent, ContentSource};
pub use merge::{parse_all_blobs, parse_all_blobs_sync, parse_blobs, sorted_candidates, to_texts, unique, CandidateSet};
pub use scanner::scan;
pub use strategy::{Parsing, Strategy, StrategyError, IO};
