//! Crawl scheduling, page caching and link extraction for a wiki link graph.

pub mod crawler;
pub mod entry;
pub mod frontier;
pub mod model;
pub mod patterns;
pub mod scheduler;
pub mod settings;
pub mod string_processing;
pub mod text;
pub mod traversal;
pub mod web_data_processing;
