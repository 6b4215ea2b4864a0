//! How the file provider reaches files: a small capability that callers can
//! implement to read from somewhere other than the local file system.

use crate::error::QuantumConfigError;
use vstd::prelude::*;

verus! {

/// Reads configuration files.
pub trait FileReader {
    /// The whole text of the file at `path`.
    fn read_content(&self, path: &str) -> Result<String, QuantumConfigError>;

    /// Whether a regular file exists at `path`.
    fn file_exists(&self, path: &str) -> bool;
}

} // verus!
