//! Errors surfaced by the search core: malformed query syntax and
//! unparseable date bounds.

use vstd::prelude::*;

verus! {

#[derive(Debug, Clone)]
pub enum Error {
    /// A date bound that does not parse, carrying the offending input.
    InvalidDate(String),
    /// A query string with malformed syntax, carrying the offending input.
    InvalidQuery(String),
}

} // verus!
