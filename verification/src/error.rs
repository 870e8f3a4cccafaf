//! Errors reported by the formatter.
use vstd::prelude::*;

verus! {

#[derive(Debug)]
pub enum Error {
    /// The input cannot be formatted (for instance, it is empty).
    InvalidInput(String),
}

} // verus!
