//! The command line of the search engine, as values.
use vstd::prelude::*;

verus! {

/// One command of the command-line tool.
#[derive(Debug, PartialEq, Eq)]
pub enum Action {
    /// Registers a URL to crawl.
    Add { url: String },
    /// Registers an API user.
    AddUser { username: String, password: String },
    /// Fetches every URL that is due.
    Crawl,
    /// Recomputes the TF-IDF scores of the whole corpus.
    Index,
    /// Ranks documents for the query terms.
    Search { query: Vec<String> },
    /// Creates the data directory and its tables.
    Init,
}

/// The command-line tool's arguments: a command and the data directory.
#[derive(Debug)]
pub struct Cli {
    pub action: Action,
    pub path: String,
}

} // verus!
