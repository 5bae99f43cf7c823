//! Crawling, text processing and ranking logic of a small search engine.
pub mod text;
pub mod processor;
pub mod robots;
pub mod urls;
pub mod shard;
pub mod snippet;
pub mod manager;
pub mod query;
pub mod content;
pub mod config;
pub mod worker;
pub mod indexer;
