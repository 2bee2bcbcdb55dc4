//! Network loading API.
//!
//! A placeholder entry point: no loading backend is wired up yet, so
//! every call reports the file as not found.

use crate::network_reader::ReaderError;
use vstd::prelude::*;

verus! {

/// Load a network from the file at `filepath`.  No backend is wired
/// up yet: the call always reports `FileNotFound`.
#[allow(unused_variables)]
pub fn load_network(filepath: String) -> (r: Result<String, ReaderError>)
    ensures
        r == Err::<String, ReaderError>(ReaderError::FileNotFound),
{
    Err(ReaderError::FileNotFound)
}

} // verus!
