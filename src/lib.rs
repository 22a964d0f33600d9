//! A small crawler and text search engine: archives fetched exchanges,
//! extracts their text, counts terms, gathers TF-IDF inputs over the corpus,
//! and ranks documents for multi-term queries.
//!
//! Storage, HTTP and floating-point scoring live with the caller; every
//! function here works on plain values.
pub mod archive;
pub mod cli;
pub mod crawl;
pub mod extract;
pub mod index;
pub mod search;
pub mod server;
pub mod terms;
pub mod text;
pub mod users;
