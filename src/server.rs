//! The API server's arguments, as values.
use vstd::prelude::*;

verus! {

/// The API server's arguments: the address to listen on and the data directory.
#[derive(Debug)]
pub struct Cli {
    pub address: String,
    pub path: String,
}

} // verus!
